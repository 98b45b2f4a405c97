//! The chunk store: a range-addressable map from file names to byte
//! contents, under an unnamed root directory.
//!
//! A chunk arrives as a byte slice tagged with a logical path, a starting
//! offset and a gzip flag, and is kept under a name that encodes all three:
//! `<path>[.gzippedStream].uploadTemporary.<offset>`, the offset written as
//! twelve zero-padded decimal digits so that the lexicographic order of
//! chunk names is the numeric order of offsets. Finalizing merges every
//! chunk selected by a shell-style pattern into the file named by the part
//! of the chunk name before the marker, in ascending name order, and
//! removes the consumed chunks. Reads prefer the gzip-tagged variant of a
//! path and report which one they found.

use crate::globext::{glob_match, glob_matches};
use crate::strutil::{
    ends_with_str, find_sub, first_occurrence, fixed_width_dec, format_fixed_dec, is_prefix,
    is_suffix, lemma_lex_connected, lemma_lex_total_ordering, lemma_lex_trans, lex_le, lex_leq,
    starts_with_str, str_eq,
};
use crate::StoreError;
use core::ops::Range;
use vstd::prelude::*;
use vstd::seq_lib::*;
use vstd::slice::slice_to_vec;
use vstd::string::*;

verus! {

/// One stored file: its name under the store's root, and its bytes.
pub struct Entry {
    pub name: String,
    pub data: Vec<u8>,
}

/// The mathematical image of an entry.
pub struct EntryImage {
    pub name: Seq<char>,
    pub data: Seq<u8>,
}

impl View for Entry {
    type V = EntryImage;

    open spec fn view(&self) -> EntryImage {
        EntryImage { name: self.name@, data: self.data@ }
    }
}

/// The names of a sequence of entries, in order.
pub open spec fn names_of(entries: Seq<EntryImage>) -> Seq<Seq<char>> {
    entries.map_values(|e: EntryImage| e.name)
}

/// No two entries share a name.
pub open spec fn distinct_names(entries: Seq<EntryImage>) -> bool {
    forall|i: int, j: int|
        0 <= i < j < entries.len() ==> (#[trigger] entries[i]).name != (#[trigger] entries[j]).name
}

/// The finite map an entry sequence denotes.
pub open spec fn map_of(entries: Seq<EntryImage>) -> Map<Seq<char>, Seq<u8>>
    decreases entries.len(),
{
    if entries.len() == 0 {
        Map::empty()
    } else {
        map_of(entries.drop_last()).insert(entries.last().name, entries.last().data)
    }
}

/// The total byte count of an entry sequence.
pub open spec fn bytes_total(entries: Seq<EntryImage>) -> nat
    decreases entries.len(),
{
    if entries.len() == 0 {
        0
    } else {
        bytes_total(entries.drop_last()) + entries.last().data.len()
    }
}

proof fn lemma_map_of_contains(entries: Seq<EntryImage>, k: Seq<char>)
    ensures
        map_of(entries).contains_key(k) <==> exists|i: int|
            0 <= i < entries.len() && (#[trigger] entries[i]).name == k,
    decreases entries.len(),
{
    if entries.len() > 0 {
        lemma_map_of_contains(entries.drop_last(), k);
        if entries.last().name == k {
            assert(entries[entries.len() - 1].name == k);
        } else if map_of(entries).contains_key(k) {
            let i = choose|i: int|
                0 <= i < entries.drop_last().len() && (#[trigger] entries.drop_last()[i]).name
                    == k;
            assert(entries[i].name == k);
        } else {
            assert forall|i: int| 0 <= i < entries.len() implies (#[trigger] entries[i]).name
                != k by {
                if i < entries.len() - 1 {
                    assert(entries.drop_last()[i].name != k);
                }
            }
        }
    }
}

proof fn lemma_map_of_get(entries: Seq<EntryImage>, i: int)
    requires
        distinct_names(entries),
        0 <= i < entries.len(),
    ensures
        map_of(entries).contains_key(entries[i].name),
        map_of(entries)[entries[i].name] == entries[i].data,
    decreases entries.len(),
{
    if i == entries.len() - 1 {
    } else {
        assert(entries.drop_last()[i] == entries[i]);
        lemma_map_of_get(entries.drop_last(), i);
        assert(entries.last().name != entries[i].name);
    }
}

/// The range-addressable file store.
pub struct Store {
    entries: Vec<Entry>,
}

impl View for Store {
    type V = Map<Seq<char>, Seq<u8>>;

    closed spec fn view(&self) -> Map<Seq<char>, Seq<u8>> {
        map_of(self.images())
    }
}

/// The gzip marker: appended to a logical path, it records that the stored
/// bytes are gzip-compressed.
pub open spec fn gz_marker() -> Seq<char> {
    ".gzippedStream"@
}

/// The chunk marker: separates a chunk's base name from its offset digits.
pub open spec fn chunk_marker() -> Seq<char> {
    ".uploadTemporary."@
}

/// The file name a finalized logical path is stored under.
pub open spec fn base_name_spec(path: Seq<char>, is_gzip: bool) -> Seq<char> {
    if is_gzip {
        path + gz_marker()
    } else {
        path
    }
}

/// The name of the chunk file for `path` at byte offset `start`.
pub open spec fn chunk_file_name_spec(path: Seq<char>, is_gzip: bool, start: nat) -> Seq<char> {
    base_name_spec(path, is_gzip) + chunk_marker() + fixed_width_dec(start, 12)
}

/// Offsets must stay below 10^12 so that twelve digits hold them and
/// lexicographic name order is numeric offset order.
pub open spec fn offset_limit() -> nat {
    1000000000000
}

/// The name of the chunk file for `path` at byte offset `start`.
pub fn chunk_file_name(path: &str, is_gzip: bool, start: usize) -> (r: String)
    requires
        start < offset_limit(),
    ensures
        r@ == chunk_file_name_spec(path@, is_gzip, start as nat),
{
    let mut s: String = path.to_owned();
    if is_gzip {
        s.append(".gzippedStream");
    }
    s.append(".uploadTemporary.");
    let off = format_fixed_dec(start, 12);
    s.append(off.as_str());
    s
}

/// The bytes a read returns: the whole content, or the requested slice
/// clipped to what is actually present.
pub open spec fn slice_spec(data: Seq<u8>, range: Option<Range<usize>>) -> Seq<u8> {
    match range {
        Option::None => data,
        Option::Some(rg) => {
            let lo = if rg.start as int <= data.len() as int {
                rg.start as int
            } else {
                data.len() as int
            };
            let hi = if rg.end as int <= data.len() as int {
                rg.end as int
            } else {
                data.len() as int
            };
            if lo <= hi {
                data.subrange(lo, hi)
            } else {
                Seq::empty()
            }
        },
    }
}

/// The part of `name` after `dir/`, with a trailing gzip marker stripped.
pub open spec fn strip_gz(name: Seq<char>) -> Seq<char> {
    if is_suffix(gz_marker(), name) {
        name.take(name.len() - gz_marker().len())
    } else {
        name
    }
}

/// The relative listing of `names` under directory `dir`: the names that
/// lie strictly below `dir/`, in store order, each made relative to `dir`
/// and stripped of a trailing gzip marker.
pub open spec fn listing_of(names: Seq<Seq<char>>, dir: Seq<char>) -> Seq<Seq<char>>
    decreases names.len(),
{
    if names.len() == 0 {
        Seq::empty()
    } else {
        let rest = listing_of(names.drop_last(), dir);
        let n = names.last();
        let pref = dir + "/"@;
        if is_prefix(pref, n) {
            rest.push(strip_gz(n.skip(pref.len() as int)))
        } else {
            rest
        }
    }
}

impl Store {
    /// The images of the entries, in store order.
    pub closed spec fn images(&self) -> Seq<EntryImage> {
        self.entries@.map_values(|e: Entry| e@)
    }

    /// The file names, in store order.
    pub closed spec fn names(&self) -> Seq<Seq<char>> {
        names_of(self.images())
    }

    /// Well-formed: no two entries share a name.
    pub closed spec fn wf(&self) -> bool {
        distinct_names(self.images())
    }

    /// The total byte count of the store.
    pub closed spec fn total_bytes(&self) -> nat {
        bytes_total(self.images())
    }

    /// The store's names are exactly the keys of its map, each holding that
    /// entry's data.
    pub proof fn lemma_names_are_keys(&self)
        requires
            self.wf(),
    ensures
            forall|i: int| 0 <= i < self.names().len() ==> self@.contains_key(
                #[trigger] self.names()[i],
            ),
            forall|k: Seq<char>| #[trigger] self@.contains_key(k) ==> self.names().contains(k),
    {
        assert forall|i: int| 0 <= i < self.names().len() implies self@.contains_key(
            #[trigger] self.names()[i],
        ) by {
            lemma_map_of_get(self.images(), i);
        }
        assert forall|k: Seq<char>| #[trigger] self@.contains_key(k) implies self.names().contains(
            k,
        ) by {
            lemma_map_of_contains(self.images(), k);
            let i = choose|i: int|
                0 <= i < self.images().len() && (#[trigger] self.images()[i]).name == k;
            assert(self.names()[i] == k);
        }
    }

    /// An empty store.
    pub fn new() -> (s: Store)
        ensures
            s.wf(),
            s@ =~= Map::<Seq<char>, Seq<u8>>::empty(),
            s.names() =~= Seq::<Seq<char>>::empty(),
            s.total_bytes() == 0,
    {
        let s = Store { entries: Vec::new() };
        assert(s.images() =~= Seq::<EntryImage>::empty());
        s
    }

    /// The index of the entry named `name`, if any.
    fn find_index(&self, name: &str) -> (r: Option<usize>)
        ensures
            match r {
                Some(i) => i < self.images().len() && self.images()[i as int].name == name@,
                None => forall|j: int|
                    0 <= j < self.images().len() ==> (#[trigger] self.images()[j]).name != name@,
            },
    {
        let n = self.entries.len();
        let mut i: usize = 0;
        while i < n
            invariant
                n == self.entries.len(),
                i <= n,
                forall|j: int| 0 <= j < i ==> (#[trigger] self.images()[j]).name != name@,
            decreases n - i,
        {
            if str_eq(self.entries[i].name.as_str(), name) {
                assert(self.images()[i as int].name == name@);
                return Some(i);
            }
            assert(self.images()[i as int].name != name@);
            i = i + 1;
        }
        None
    }

    /// The names of every stored file, in store order.
    pub fn file_names(&self) -> (r: Vec<String>)
        ensures
            r.deep_view() == self.names(),
    {
        let n = self.entries.len();
        let mut out: Vec<String> = Vec::new();
        let mut i: usize = 0;
        while i < n
            invariant
                n == self.entries@.len(),
                i <= n,
                out.deep_view() == self.names().take(i as int),
            decreases n - i,
        {
            let ghost prev = out.deep_view();
            out.push(self.entries[i].name.as_str().to_owned());
            i = i + 1;
            proof {
                assert(self.names()[i - 1] == self.images()[i - 1].name);
                assert(out.deep_view() =~= prev.push(self.names()[i - 1]));
                assert(out.deep_view() =~= self.names().take(i as int));
            }
        }
        proof {
            assert(self.names().take(n as int) =~= self.names());
        }
        out
    }

    /// The bytes of the file with exactly this name, if it is present.
    pub fn file_data(&self, name: &str) -> (r: Option<Vec<u8>>)
        requires
            self.wf(),
        ensures
            match r {
                Some(d) => self@.contains_key(name@) && d@ == self@[name@],
                None => !self@.contains_key(name@),
            },
    {
        proof {
            lemma_map_of_contains(self.images(), name@);
        }
        match self.find_index(name) {
            Some(i) => {
                proof {
                    lemma_map_of_get(self.images(), i as int);
                }
                let out = copy_slice(&self.entries[i].data, &None);
                Some(out)
            },
            None => None,
        }
    }

    /// Whether a file with exactly this name is present.
    pub fn contains_name(&self, name: &str) -> (r: bool)
        requires
            self.wf(),
        ensures
            r == self@.contains_key(name@),
    {
        proof {
            lemma_map_of_contains(self.images(), name@);
        }
        match self.find_index(name) {
            Some(i) => {
                assert(self@.contains_key(name@)) by {
                    lemma_map_of_get(self.images(), i as int);
                }
                true
            },
            None => false,
        }
    }

    /// Stores one chunk: `input`, belonging to `path` at byte offset
    /// `start`, tagged gzip when `is_gzip` holds. A retry at the same
    /// offset overwrites the earlier chunk.
    pub fn save_file(&mut self, path: &str, is_gzip: bool, start: usize, input: &[u8])
        requires
            old(self).wf(),
            start < offset_limit(),
        ensures
            final(self).wf(),
            final(self)@ =~= old(self)@.insert(
                chunk_file_name_spec(path@, is_gzip, start as nat),
                input@,
            ),
            old(self)@.contains_key(chunk_file_name_spec(path@, is_gzip, start as nat))
                ==> final(self).names() == old(self).names(),
            !old(self)@.contains_key(chunk_file_name_spec(path@, is_gzip, start as nat))
                ==> final(self).names() == old(self).names().push(
                chunk_file_name_spec(path@, is_gzip, start as nat),
            ),
            final(self).total_bytes() <= old(self).total_bytes() + input@.len(),
    {
        let name = chunk_file_name(path, is_gzip, start);
        let data = slice_to_vec(input);
        self.put_file(name, data);
    }

    /// Inserts or replaces the file named `name`, verbatim.
    pub fn put_file(&mut self, name: String, data: Vec<u8>)
        requires
            old(self).wf(),
        ensures
            final(self).wf(),
            final(self)@ =~= old(self)@.insert(name@, data@),
            old(self)@.contains_key(name@) ==> final(self).names() == old(self).names(),
            !old(self)@.contains_key(name@) ==> final(self).names() == old(self).names().push(
                name@,
            ),
            final(self).total_bytes() <= old(self).total_bytes() + data@.len(),
    {
        proof {
            lemma_map_of_contains(self.images(), name@);
        }
        match self.find_index(name.as_str()) {
            Some(i) => {
                proof {
                    lemma_map_of_get(self.images(), i as int);
                }
                let ghost pre = self.images();
                self.entries.remove(i);
                self.entries.insert(i, Entry { name, data });
                proof {
                    let post = self.images();
                    assert(post =~= pre.update(i as int, EntryImage { name: name@, data: data@ }));
                    lemma_map_of_update(pre, i as int, EntryImage { name: name@, data: data@ });
                    lemma_bytes_total_update(pre, i as int, EntryImage { name: name@, data: data@ });
                    assert(self.names() =~= old(self).names());
                }
            },
            None => {
                let ghost pre = self.images();
                self.entries.push(Entry { name, data });
                proof {
                    assert(self.images() =~= pre.push(EntryImage { name: name@, data: data@ }));
                    assert(self.images().drop_last() =~= pre);
                    assert(self.names() =~= old(self).names().push(name@));
                    assert forall|i: int, j: int|
                        0 <= i < j < self.images().len() implies (#[trigger] self.images()[i]).name
                        != (#[trigger] self.images()[j]).name by {
                        if j == self.images().len() - 1 {
                            lemma_map_of_contains(pre, self.images()[j].name);
                        }
                    }
                }
            },
        }
    }

    /// Reads the logical path `path`: the gzip-tagged variant when it
    /// exists, else the plain file; reports which was found. With a range,
    /// returns the bytes of `[start, end)` that are actually present —
    /// reading past end-of-file shortens the result instead of failing.
    /// `NotFound` exactly when neither variant exists.
    pub fn dump_file(&self, path: &str, range: Option<Range<usize>>) -> (r: Result<
        (bool, Vec<u8>),
        StoreError,
    >)
        requires
            self.wf(),
            match range {
                Some(rg) => rg.start <= rg.end,
                None => true,
            },
        ensures
            ({
                let gzname = path@ + gz_marker();
                match r {
                    Ok(p) => {
                        &&& (p.0 <==> self@.contains_key(gzname))
                        &&& (p.0 ==> p.1@ == slice_spec(self@[gzname], range))
                        &&& (!p.0 ==> self@.contains_key(path@) && p.1@ == slice_spec(
                            self@[path@],
                            range,
                        ))
                    },
                    Err(e) => {
                        &&& e == StoreError::NotFound
                        &&& !self@.contains_key(gzname)
                        &&& !self@.contains_key(path@)
                    },
                }
            }),
    {
        let mut gzname: String = path.to_owned();
        gzname.append(".gzippedStream");
        proof {
            lemma_map_of_contains(self.images(), gzname@);
            lemma_map_of_contains(self.images(), path@);
        }
        match self.find_index(gzname.as_str()) {
            Some(i) => {
                proof {
                    lemma_map_of_get(self.images(), i as int);
                }
                let out = copy_slice(&self.entries[i].data, &range);
                Ok((true, out))
            },
            None => {
                match self.find_index(path) {
                    Some(i) => {
                        proof {
                            lemma_map_of_get(self.images(), i as int);
                        }
                        let out = copy_slice(&self.entries[i].data, &range);
                        Ok((false, out))
                    },
                    None => Err(StoreError::NotFound),
                }
            },
        }
    }

    /// Lists the files under `dir`, relative to it, in store order, each
    /// stripped of a trailing gzip marker. A directory nothing was stored
    /// under yields the empty listing.
    pub fn list_all_files(&self, dir: &str) -> (r: Vec<String>)
        requires
            self.wf(),
        ensures
            r.deep_view() == listing_of(self.names(), dir@),
    {
        let mut pref: String = dir.to_owned();
        pref.append("/");
        let pref_len: usize = pref.as_str().unicode_len();
        let n = self.entries.len();
        let mut out: Vec<String> = Vec::new();
        let mut i: usize = 0;
        while i < n
            invariant
                n == self.entries.len(),
                i <= n,
                pref@ == dir@ + "/"@,
                pref_len == pref@.len(),
                out.deep_view() == listing_of(self.names().take(i as int), dir@),
            decreases n - i,
        {
            let ghost prev = out.deep_view();
            let name: &str = self.entries[i].name.as_str();
            let name_len: usize = name.unicode_len();
            assert(name@ == self.names()[i as int]);
            if starts_with_str(name, pref.as_str()) {
                let rel = name.substring_char(pref_len, name_len);
                assert(rel@ =~= name@.skip(pref@.len() as int));
                let rel_len: usize = name_len - pref_len;
                let gz_len: usize = ".gzippedStream".unicode_len();
                let stripped: &str = if ends_with_str(rel, ".gzippedStream") {
                    let t = rel.substring_char(0, rel_len - gz_len);
                    assert(t@ =~= strip_gz(rel@));
                    t
                } else {
                    rel
                };
                out.push(stripped.to_owned());
                assert(out.deep_view() =~= prev.push(strip_gz(name@.skip(
                    (dir@ + "/"@).len() as int,
                ))));
            }
            i = i + 1;
            proof {
                assert(self.names().take(i as int).drop_last() =~= self.names().take(i as int - 1));
                assert(self.names().take(i as int).last() == self.names()[i as int - 1]);
                assert(out.deep_view() =~= listing_of(self.names().take(i as int), dir@));
            }
        }
        proof {
            assert(self.names().take(n as int) =~= self.names());
        }
        out
    }
}

/// The requested slice of `data`, clipped to what is present.
fn copy_slice(data: &Vec<u8>, range: &Option<Range<usize>>) -> (out: Vec<u8>)
    requires
        match range {
            Some(rg) => rg.start <= rg.end,
            None => true,
        },
    ensures
        out@ == slice_spec(data@, *range),
{
    let len = data.len();
    let (lo, hi): (usize, usize) = match range {
        None => (0, len),
        Some(rg) => {
            let lo = if rg.start <= len {
                rg.start
            } else {
                len
            };
            let hi = if rg.end <= len {
                rg.end
            } else {
                len
            };
            (lo, hi)
        },
    };
    let mut out: Vec<u8> = Vec::new();
    let mut j: usize = lo;
    while j < hi
        invariant
            lo <= j,
            j <= hi || j == lo,
            hi <= data@.len(),
            lo <= hi,
            out@ == data@.subrange(lo as int, j as int),
        decreases hi - j,
    {
        out.push(data[j]);
        assert(out@ =~= data@.subrange(lo as int, j as int + 1));
        j = j + 1;
    }
    proof {
        if j == lo {
            assert(out@ =~= data@.subrange(lo as int, lo as int));
        }
        assert(out@ =~= slice_spec(data@, *range));
    }
    out
}

/// The pattern finalize selects chunk files by: the caller's pattern with
/// the chunk marker and a wildcard for the offset digits appended.
pub open spec fn full_pattern(pattern: Seq<char>) -> Seq<char> {
    pattern + ".uploadTemporary.*"@
}

/// Whether `name` names a chunk that `pattern` selects: it matches the
/// full pattern and carries the chunk marker.
pub open spec fn is_chunk_name(pattern: Seq<char>, name: Seq<char>) -> bool {
    glob_matches(full_pattern(pattern), name) && crate::strutil::contains_sub(name, chunk_marker())
}

/// The part of a chunk name before its first chunk marker: the name of the
/// file the chunk belongs to.
pub open spec fn base_of(name: Seq<char>) -> Seq<char> {
    name.take(first_occurrence(name, chunk_marker()))
}

/// The chunk names among `names` that `pattern` selects, in order.
pub open spec fn chunk_names(names: Seq<Seq<char>>, pattern: Seq<char>) -> Seq<Seq<char>>
    decreases names.len(),
{
    if names.len() == 0 {
        Seq::empty()
    } else {
        let rest = chunk_names(names.drop_last(), pattern);
        if is_chunk_name(pattern, names.last()) {
            rest.push(names.last())
        } else {
            rest
        }
    }
}

/// The distinct base names of `chunks`, in first-appearance order.
pub open spec fn bases_of(chunks: Seq<Seq<char>>) -> Seq<Seq<char>>
    decreases chunks.len(),
{
    if chunks.len() == 0 {
        Seq::empty()
    } else {
        let rest = bases_of(chunks.drop_last());
        if rest.contains(base_of(chunks.last())) {
            rest
        } else {
            rest.push(base_of(chunks.last()))
        }
    }
}

/// The chunk names of `chunks` whose base is `b`, in order.
pub open spec fn group_of(chunks: Seq<Seq<char>>, b: Seq<char>) -> Seq<Seq<char>>
    decreases chunks.len(),
{
    if chunks.len() == 0 {
        Seq::empty()
    } else {
        let rest = group_of(chunks.drop_last(), b);
        if base_of(chunks.last()) == b {
            rest.push(chunks.last())
        } else {
            rest
        }
    }
}

/// Names in ascending lexicographic order.
pub open spec fn sort_lex(names: Seq<Seq<char>>) -> Seq<Seq<char>> {
    names.sort_by(crate::strutil::lex_leq_rel())
}

/// The concatenation of the data of `names` under `m`, in order.
pub open spec fn merged_data(m: Map<Seq<char>, Seq<u8>>, names: Seq<Seq<char>>) -> Seq<u8>
    decreases names.len(),
{
    if names.len() == 0 {
        Seq::empty()
    } else {
        merged_data(m, names.drop_last()) + m[names.last()]
    }
}

/// The total length of the data of `names` under `m`.
pub open spec fn names_total(m: Map<Seq<char>, Seq<u8>>, names: Seq<Seq<char>>) -> nat
    decreases names.len(),
{
    if names.len() == 0 {
        0
    } else {
        names_total(m, names.drop_last()) + m[names.last()].len()
    }
}

/// What finalize does, stated between the store's map before (`pre`, with
/// its names in store order `pre_names`) and after (`post`): the chunks
/// that `pattern` selects are grouped by base name; each group's data,
/// ordered by ascending chunk name, becomes the file at the base name; the
/// chunks are removed, every other file is untouched, and `total` counts
/// the bytes merged.
pub open spec fn finalize_post(
    pre: Map<Seq<char>, Seq<u8>>,
    pre_names: Seq<Seq<char>>,
    pattern: Seq<char>,
    post: Map<Seq<char>, Seq<u8>>,
    total: nat,
) -> bool {
    let ch = chunk_names(pre_names, pattern);
    let bs = bases_of(ch);
    &&& total == names_total(pre, ch)
    &&& forall|b: Seq<char>| #[trigger]
        bs.contains(b) ==> post.contains_key(b) && post[b] == merged_data(
            pre,
            sort_lex(group_of(ch, b)),
        )
    &&& forall|k: Seq<char>| #[trigger]
        pre.contains_key(k) && !is_chunk_name(pattern, k) && !bs.contains(k)
            ==> post.contains_key(k) && post[k] == pre[k]
    &&& forall|k: Seq<char>| #[trigger] post.contains_key(k) ==> pre.contains_key(k)
        || bs.contains(k)
    &&& forall|k: Seq<char>| #[trigger]
        is_chunk_name(pattern, k) && !bs.contains(k) ==> !post.contains_key(k)
}

/// The entries whose names `pattern` selects as chunks, in order.
pub open spec fn chunk_entries(entries: Seq<EntryImage>, pattern: Seq<char>) -> Seq<EntryImage>
    decreases entries.len(),
{
    if entries.len() == 0 {
        Seq::empty()
    } else {
        let rest = chunk_entries(entries.drop_last(), pattern);
        if is_chunk_name(pattern, entries.last().name) {
            rest.push(entries.last())
        } else {
            rest
        }
    }
}

/// The entries whose names `pattern` does not select, in order.
pub open spec fn kept_entries(entries: Seq<EntryImage>, pattern: Seq<char>) -> Seq<EntryImage>
    decreases entries.len(),
{
    if entries.len() == 0 {
        Seq::empty()
    } else {
        let rest = kept_entries(entries.drop_last(), pattern);
        if is_chunk_name(pattern, entries.last().name) {
            rest
        } else {
            rest.push(entries.last())
        }
    }
}

/// The entries whose base name is `b`, in order.
pub open spec fn group_entries(entries: Seq<EntryImage>, b: Seq<char>) -> Seq<EntryImage>
    decreases entries.len(),
{
    if entries.len() == 0 {
        Seq::empty()
    } else {
        let rest = group_entries(entries.drop_last(), b);
        if base_of(entries.last().name) == b {
            rest.push(entries.last())
        } else {
            rest
        }
    }
}

/// Every entry's data is what `m` maps its name to.
pub open spec fn all_assoc(entries: Seq<EntryImage>, m: Map<Seq<char>, Seq<u8>>) -> bool {
    forall|i: int|
        0 <= i < entries.len() ==> m.contains_key((#[trigger] entries[i]).name) && m[entries[i].name]
            == entries[i].data
}

proof fn lemma_chunk_entries_total(entries: Seq<EntryImage>, pattern: Seq<char>)
    ensures
        bytes_total(chunk_entries(entries, pattern)) <= bytes_total(entries),
    decreases entries.len(),
{
    if entries.len() > 0 {
        lemma_chunk_entries_total(entries.drop_last(), pattern);
        let rest = chunk_entries(entries.drop_last(), pattern);
        if is_chunk_name(pattern, entries.last().name) {
            assert(rest.push(entries.last()).drop_last() =~= rest);
            assert(rest.push(entries.last()).last() == entries.last());
        }
    }
}

proof fn lemma_bytes_total_take(entries: Seq<EntryImage>, k: int)
    requires
        0 <= k <= entries.len(),
    ensures
        bytes_total(entries.take(k)) <= bytes_total(entries),
    decreases entries.len() - k,
{
    if k < entries.len() {
        lemma_bytes_total_take(entries, k + 1);
        assert(entries.take(k + 1).drop_last() =~= entries.take(k));
    } else {
        assert(entries.take(k) =~= entries);
    }
}

proof fn lemma_chunk_names_of_entries(entries: Seq<EntryImage>, pattern: Seq<char>)
    ensures
        names_of(chunk_entries(entries, pattern)) =~= chunk_names(names_of(entries), pattern),
    decreases entries.len(),
{
    if entries.len() > 0 {
        lemma_chunk_names_of_entries(entries.drop_last(), pattern);
        assert(names_of(entries.drop_last()) =~= names_of(entries).drop_last());
        assert(names_of(entries).last() == entries.last().name);
    }
}

proof fn lemma_group_names_of_entries(entries: Seq<EntryImage>, b: Seq<char>)
    ensures
        names_of(group_entries(entries, b)) =~= group_of(names_of(entries), b),
    decreases entries.len(),
{
    if entries.len() > 0 {
        lemma_group_names_of_entries(entries.drop_last(), b);
        assert(names_of(entries.drop_last()) =~= names_of(entries).drop_last());
        assert(names_of(entries).last() == entries.last().name);
    }
}

proof fn lemma_filter_distinct(entries: Seq<EntryImage>, pattern: Seq<char>)
    requires
        distinct_names(entries),
    ensures
        distinct_names(chunk_entries(entries, pattern)),
        distinct_names(kept_entries(entries, pattern)),
    decreases entries.len(),
{
    if entries.len() > 0 {
        assert(distinct_names(entries.drop_last())) by {
            assert forall|i: int, j: int|
                0 <= i < j < entries.drop_last().len() implies (#[trigger] entries.drop_last()[i]).name
                != (#[trigger] entries.drop_last()[j]).name by {
                assert(entries[i].name != entries[j].name);
            }
        }
        lemma_filter_distinct(entries.drop_last(), pattern);
        lemma_filter_contains(entries.drop_last(), pattern);
        assert forall|i: int|
            0 <= i < entries.drop_last().len() implies (#[trigger] entries.drop_last()[i]).name
            != entries.last().name by {
            assert(entries[i].name != entries[entries.len() - 1].name);
        }
    }
}

/// Every filtered entry is one of the originals.
proof fn lemma_filter_contains(entries: Seq<EntryImage>, pattern: Seq<char>)
    ensures
        forall|i: int|
            0 <= i < chunk_entries(entries, pattern).len() ==> entries.contains(
                #[trigger] chunk_entries(entries, pattern)[i],
            ),
        forall|i: int|
            0 <= i < kept_entries(entries, pattern).len() ==> entries.contains(
                #[trigger] kept_entries(entries, pattern)[i],
            ),
    decreases entries.len(),
{
    if entries.len() > 0 {
        lemma_filter_contains(entries.drop_last(), pattern);
        assert forall|i: int|
            0 <= i < chunk_entries(entries, pattern).len() implies entries.contains(
            #[trigger] chunk_entries(entries, pattern)[i],
        ) by {
            let c = chunk_entries(entries, pattern);
            if i < chunk_entries(entries.drop_last(), pattern).len() {
                let e = chunk_entries(entries.drop_last(), pattern)[i];
                assert(entries.drop_last().contains(e));
                let j = choose|j: int|
                    0 <= j < entries.drop_last().len() && entries.drop_last()[j] == e;
                assert(entries[j] == e);
            } else {
                assert(c[i] == entries.last());
                assert(entries[entries.len() - 1] == entries.last());
            }
        }
        assert forall|i: int|
            0 <= i < kept_entries(entries, pattern).len() implies entries.contains(
            #[trigger] kept_entries(entries, pattern)[i],
        ) by {
            let c = kept_entries(entries, pattern);
            if i < kept_entries(entries.drop_last(), pattern).len() {
                let e = kept_entries(entries.drop_last(), pattern)[i];
                assert(entries.drop_last().contains(e));
                let j = choose|j: int|
                    0 <= j < entries.drop_last().len() && entries.drop_last()[j] == e;
                assert(entries[j] == e);
            } else {
                assert(c[i] == entries.last());
                assert(entries[entries.len() - 1] == entries.last());
            }
        }
    }
}

proof fn lemma_all_assoc_of_map(entries: Seq<EntryImage>)
    requires
        distinct_names(entries),
    ensures
        all_assoc(entries, map_of(entries)),
{
    assert forall|i: int| 0 <= i < entries.len() implies map_of(entries).contains_key(
        (#[trigger] entries[i]).name,
    ) && map_of(entries)[entries[i].name] == entries[i].data by {
        lemma_map_of_get(entries, i);
    }
}

proof fn lemma_filter_assoc(entries: Seq<EntryImage>, pattern: Seq<char>, m: Map<Seq<char>, Seq<u8>>)
    requires
        all_assoc(entries, m),
    ensures
        all_assoc(chunk_entries(entries, pattern), m),
        all_assoc(kept_entries(entries, pattern), m),
    decreases entries.len(),
{
    if entries.len() > 0 {
        assert(all_assoc(entries.drop_last(), m)) by {
            assert forall|i: int| 0 <= i < entries.drop_last().len() implies m.contains_key(
                (#[trigger] entries.drop_last()[i]).name,
            ) && m[entries.drop_last()[i].name] == entries.drop_last()[i].data by {
                assert(entries[i] == entries.drop_last()[i]);
            }
        }
        lemma_filter_assoc(entries.drop_last(), pattern, m);
        assert(entries[entries.len() - 1] == entries.last());
    }
}

proof fn lemma_group_assoc(entries: Seq<EntryImage>, b: Seq<char>, m: Map<Seq<char>, Seq<u8>>)
    requires
        all_assoc(entries, m),
    ensures
        all_assoc(group_entries(entries, b), m),
    decreases entries.len(),
{
    if entries.len() > 0 {
        assert(all_assoc(entries.drop_last(), m)) by {
            assert forall|i: int| 0 <= i < entries.drop_last().len() implies m.contains_key(
                (#[trigger] entries.drop_last()[i]).name,
            ) && m[entries.drop_last()[i].name] == entries.drop_last()[i].data by {
                assert(entries[i] == entries.drop_last()[i]);
            }
        }
        lemma_group_assoc(entries.drop_last(), b, m);
        assert(entries[entries.len() - 1] == entries.last());
    }
}

proof fn lemma_names_total_assoc(entries: Seq<EntryImage>, m: Map<Seq<char>, Seq<u8>>)
    requires
        all_assoc(entries, m),
    ensures
        names_total(m, names_of(entries)) == bytes_total(entries),
    decreases entries.len(),
{
    if entries.len() > 0 {
        assert(all_assoc(entries.drop_last(), m)) by {
            assert forall|i: int| 0 <= i < entries.drop_last().len() implies m.contains_key(
                (#[trigger] entries.drop_last()[i]).name,
            ) && m[entries.drop_last()[i].name] == entries.drop_last()[i].data by {
                assert(entries[i] == entries.drop_last()[i]);
            }
        }
        lemma_names_total_assoc(entries.drop_last(), m);
        assert(names_of(entries.drop_last()) =~= names_of(entries).drop_last());
        assert(names_of(entries).last() == entries.last().name);
        assert(entries[entries.len() - 1] == entries.last());
    }
}

/// A base that never appears has an empty group.
proof fn lemma_group_of_empty(names: Seq<Seq<char>>, b: Seq<char>)
    requires
        !bases_of(names).contains(b),
    ensures
        group_of(names, b) =~= Seq::<Seq<char>>::empty(),
    decreases names.len(),
{
    if names.len() > 0 {
        if !bases_of(names.drop_last()).contains(b) {
            lemma_group_of_empty(names.drop_last(), b);
        } else {
            let rest = bases_of(names.drop_last());
            let i = choose|i: int| 0 <= i < rest.len() && rest[i] == b;
            if !rest.contains(base_of(names.last())) {
                assert(bases_of(names)[i] == b);
            }
            assert(bases_of(names).contains(b));
        }
        if base_of(names.last()) == b {
            if !bases_of(names.drop_last()).contains(b) {
                assert(bases_of(names) == bases_of(names.drop_last()).push(b));
                assert(bases_of(names).last() == b);
                assert(bases_of(names).contains(b));
            }
        }
    }
}

proof fn lemma_group_entries_empty(entries: Seq<EntryImage>, b: Seq<char>)
    requires
        !bases_of(names_of(entries)).contains(b),
    ensures
        group_entries(entries, b) =~= Seq::<EntryImage>::empty(),
{
    lemma_group_of_empty(names_of(entries), b);
    lemma_group_names_of_entries(entries, b);
    assert(names_of(group_entries(entries, b)).len() == 0);
}

/// The bases list never repeats a base.
proof fn lemma_bases_distinct(names: Seq<Seq<char>>)
    ensures
        forall|i: int, j: int|
            0 <= i < j < bases_of(names).len() ==> bases_of(names)[i] != bases_of(names)[j],
    decreases names.len(),
{
    if names.len() > 0 {
        lemma_bases_distinct(names.drop_last());
        let rest = bases_of(names.drop_last());
        if !rest.contains(base_of(names.last())) {
            assert forall|i: int, j: int|
                0 <= i < j < bases_of(names).len() implies bases_of(names)[i] != bases_of(
                names,
            )[j] by {
                if j == bases_of(names).len() - 1 {
                    assert(bases_of(names)[i] == rest[i]);
                    assert(rest.contains(rest[i]));
                }
            }
        }
    }
}

/// The map a filtered entry sequence denotes: the keys that are not chunks,
/// with their original data.
proof fn lemma_kept_map(entries: Seq<EntryImage>, pattern: Seq<char>, k: Seq<char>)
    requires
        distinct_names(entries),
    ensures
        map_of(kept_entries(entries, pattern)).contains_key(k) <==> (map_of(
            entries,
        ).contains_key(k) && !is_chunk_name(pattern, k)),
        map_of(kept_entries(entries, pattern)).contains_key(k) ==> map_of(
            kept_entries(entries, pattern),
        )[k] == map_of(entries)[k],
{
    let ke = kept_entries(entries, pattern);
    lemma_map_of_contains(entries, k);
    lemma_map_of_contains(ke, k);
    lemma_filter_distinct(entries, pattern);
    lemma_all_assoc_of_map(entries);
    lemma_filter_assoc(entries, pattern, map_of(entries));
    lemma_kept_names(entries, pattern, k);
    if map_of(ke).contains_key(k) {
        let i = choose|i: int| 0 <= i < ke.len() && (#[trigger] ke[i]).name == k;
        lemma_map_of_get(ke, i);
    }
}

/// A name appears among the kept entries exactly when it appears among the
/// originals and is not a chunk name.
proof fn lemma_kept_names(entries: Seq<EntryImage>, pattern: Seq<char>, k: Seq<char>)
    ensures
        (exists|i: int|
            0 <= i < kept_entries(entries, pattern).len() && (#[trigger] kept_entries(
                entries,
                pattern,
            )[i]).name == k) <==> ((exists|i: int|
            0 <= i < entries.len() && (#[trigger] entries[i]).name == k) && !is_chunk_name(
            pattern,
            k,
        )),
    decreases entries.len(),
{
    let ke = kept_entries(entries, pattern);
    if entries.len() > 0 {
        lemma_kept_names(entries.drop_last(), pattern, k);
        let ked = kept_entries(entries.drop_last(), pattern);
        assert(entries[entries.len() - 1] == entries.last());
        if exists|i: int| 0 <= i < ke.len() && (#[trigger] ke[i]).name == k {
            let i = choose|i: int| 0 <= i < ke.len() && (#[trigger] ke[i]).name == k;
            if i < ked.len() {
                assert(ked[i].name == k);
                let j = choose|j: int|
                    0 <= j < entries.drop_last().len() && (#[trigger] entries.drop_last()[j]).name
                        == k;
                assert(entries[j].name == k);
            } else {
                assert(ke[i] == entries.last());
            }
        }
        if (exists|i: int| 0 <= i < entries.len() && (#[trigger] entries[i]).name == k)
            && !is_chunk_name(pattern, k) {
            let i = choose|i: int| 0 <= i < entries.len() && (#[trigger] entries[i]).name == k;
            if i < entries.len() - 1 {
                assert(entries.drop_last()[i].name == k);
                let j = choose|j: int| 0 <= j < ked.len() && (#[trigger] ked[j]).name == k;
                assert(ke[j].name == k);
            } else {
                assert(ke[ke.len() - 1].name == k);
            }
        }
    }
}

/// The images of a sequence of entries.
pub open spec fn images_of(entries: Seq<Entry>) -> Seq<EntryImage> {
    entries.map_values(|e: Entry| e@)
}

proof fn lemma_seq_insert_multiset<A>(s: Seq<A>, p: int, x: A)
    requires
        0 <= p <= s.len(),
    ensures
        s.insert(p, x).to_multiset() =~= s.to_multiset().insert(x),
{
    broadcast use vstd::seq_lib::group_to_multiset_ensures;
    broadcast use vstd::multiset::group_multiset_axioms;

    assert(s.insert(p, x) =~= s.take(p).push(x) + s.skip(p));
    lemma_multiset_commutative(s.take(p).push(x), s.skip(p));
    assert(s.take(p).push(x).to_multiset() =~= s.take(p).to_multiset().insert(x));
    assert(s =~= s.take(p) + s.skip(p));
    lemma_multiset_commutative(s.take(p), s.skip(p));
    assert(s.insert(p, x).to_multiset() =~= s.to_multiset().insert(x));
}

/// Sorts entries into ascending lexicographic name order. The names come
/// out a permutation of what went in, and each entry keeps its data.
fn sort_entries(input: Vec<Entry>, Ghost(m): Ghost<Map<Seq<char>, Seq<u8>>>) -> (out: Vec<Entry>)
    requires
        all_assoc(images_of(input@), m),
    ensures
        vstd::relations::sorted_by(names_of(images_of(out@)), crate::strutil::lex_leq_rel()),
        names_of(images_of(out@)).to_multiset() == names_of(images_of(input@)).to_multiset(),
        all_assoc(images_of(out@), m),
{
    broadcast use vstd::seq_lib::group_to_multiset_ensures;
    broadcast use vstd::multiset::group_multiset_axioms;

    let ghost leq = crate::strutil::lex_leq_rel();
    let ghost orig = names_of(images_of(input@));
    let mut src = input;
    let mut out: Vec<Entry> = Vec::new();
    while src.len() > 0
        invariant
            vstd::relations::sorted_by(names_of(images_of(out@)), leq),
            names_of(images_of(out@)).to_multiset().add(
                names_of(images_of(src@)).to_multiset(),
            ) =~= orig.to_multiset(),
            all_assoc(images_of(out@), m),
            all_assoc(images_of(src@), m),
            leq == crate::strutil::lex_leq_rel(),
            orig == names_of(images_of(input@)),
        decreases src@.len(),
    {
        broadcast use vstd::seq_lib::group_to_multiset_ensures;
        broadcast use vstd::multiset::group_multiset_axioms;

        let ghost src_names0 = names_of(images_of(src@));
        let ghost src_old = src@;
        let e = src.remove(0);
        let ghost ename = e.name@;
        proof {
            assert(names_of(images_of(src@)) =~= src_names0.remove(0)) by {
                assert forall|i: int|
                    0 <= i < src@.len() implies names_of(images_of(src@))[i] == src_names0.remove(
                    0,
                )[i] by {
                    assert(src@[i] == src_old.remove(0)[i]);
                    assert(src@[i] == src_old[i + 1]);
                    assert(src_names0[i + 1] == src_old[i + 1]@.name);
                }
            }
            assert(src_names0[0] == ename);
            assert(src_names0.remove(0).to_multiset() =~= src_names0.to_multiset().remove(ename));
            assert(all_assoc(images_of(src@), m)) by {
                assert forall|i: int| 0 <= i < images_of(src@).len() implies m.contains_key(
                    (#[trigger] images_of(src@)[i]).name,
                ) && m[images_of(src@)[i].name] == images_of(src@)[i].data by {
                    assert(src@[i] == src_old.remove(0)[i]);
                    assert(src@[i] == src_old[i + 1]);
                    assert(images_of(src@)[i] == images_of(src_old)[i + 1]);
                }
            }
            assert(images_of(src_old)[0].name == ename);
            assert(images_of(src_old)[0].data == e.data@);
            assert(m.contains_key(ename) && m[ename] == e.data@);
        }
        let n = out.len();
        let mut p: usize = 0;
        while p < n && lex_le(out[p].name.as_str(), e.name.as_str())
            invariant
                n == out.len(),
                p <= n,
                forall|q: int|
                    0 <= q < p ==> lex_leq(#[trigger] names_of(images_of(out@))[q], e.name@),
            decreases n - p,
        {
            assert(names_of(images_of(out@))[p as int] == out@[p as int]@.name);
            p = p + 1;
        }
        proof {
            if p < n {
                assert(!lex_leq(names_of(images_of(out@))[p as int], e.name@));
                lemma_lex_connected(names_of(images_of(out@))[p as int], e.name@);
            }
        }
        let ghost out_old = out@;
        out.insert(p, e);
        proof {
            let on0 = names_of(images_of(out_old));
            let on1 = names_of(images_of(out@));
            assert(on1 =~= on0.insert(p as int, ename)) by {
                on0.insert_ensures(p as int, ename);
                assert forall|i: int| 0 <= i < on1.len() implies on1[i] == on0.insert(
                    p as int,
                    ename,
                )[i] by {
                    assert(out@[i] == out_old.insert(p as int, e)[i]);
                    if i < p {
                        assert(out@[i] == out_old[i]);
                    } else if i == p {
                        assert(out@[i] == e);
                    } else {
                        assert(out@[i] == out_old[i - 1]);
                        assert(on0.insert(p as int, ename)[(i - 1) + 1] == on0[i - 1]);
                    }
                }
            }
            lemma_seq_insert_multiset(on0, p as int, ename);
            assert(vstd::relations::sorted_by(on1, leq)) by {
                assert forall|a: int, b: int| 0 <= a < b < on1.len() implies leq(
                    on1[a],
                    on1[b],
                ) by {
                    on0.insert_ensures(p as int, ename);
                    if b < p {
                    } else if a == p && b > p {
                        assert(on1[a] == ename);
                        assert(on1[b] == on0[b - 1]);
                        if b - 1 == p {
                            assert(leq(ename, on0[p as int]));
                        } else {
                            assert(leq(on0[p as int], on0[b - 1]));
                            lemma_lex_trans(ename, on0[p as int], on0[b - 1]);
                        }
                    } else if a < p && b == p {
                        assert(on1[a] == on0[a]);
                        assert(on1[b] == ename);
                    } else if a < p && b > p {
                        assert(on1[a] == on0[a]);
                        assert(on1[b] == on0[b - 1]);
                    } else if a > p {
                        assert(on1[a] == on0[a - 1]);
                        assert(on1[b] == on0[b - 1]);
                    }
                }
            }
            assert(all_assoc(images_of(out@), m)) by {
                assert forall|i: int| 0 <= i < images_of(out@).len() implies m.contains_key(
                    (#[trigger] images_of(out@)[i]).name,
                ) && m[images_of(out@)[i].name] == images_of(out@)[i].data by {
                    assert(out@[i] == out_old.insert(p as int, e)[i]);
                    if i < p {
                        assert(images_of(out@)[i] == images_of(out_old)[i]);
                    } else if i == p {
                        assert(out@[i] == e);
                    } else {
                        assert(out@[i] == out_old[i - 1]);
                        assert(images_of(out@)[i] == images_of(out_old)[i - 1]);
                    }
                }
            }
            assert(names_of(images_of(out@)).to_multiset().add(
                names_of(images_of(src@)).to_multiset(),
            ) =~= orig.to_multiset()) by {
                assert(src_names0.to_multiset().contains(ename)) by {
                    assert(src_names0[0] == ename);
                    assert(src_names0.contains(ename));
                }
            }
        }
    }
    out
}

/// The chunks of one base name, gathered before merging.
struct ChunkGroup {
    base: String,
    items: Vec<Entry>,
}

proof fn lemma_chunk_entries_are_chunks(entries: Seq<EntryImage>, pattern: Seq<char>)
    ensures
        forall|i: int|
            0 <= i < chunk_entries(entries, pattern).len() ==> is_chunk_name(
                pattern,
                (#[trigger] chunk_entries(entries, pattern)[i]).name,
            ),
    decreases entries.len(),
{
    if entries.len() > 0 {
        lemma_chunk_entries_are_chunks(entries.drop_last(), pattern);
        let c = chunk_entries(entries, pattern);
        let cd = chunk_entries(entries.drop_last(), pattern);
        assert forall|i: int| 0 <= i < c.len() implies is_chunk_name(
            pattern,
            (#[trigger] c[i]).name,
        ) by {
            if i < cd.len() {
                assert(c[i] == cd[i]);
            }
        }
    }
}

impl Store {
    /// Merges every chunk that `pattern` selects. Chunks are grouped by the
    /// part of their name before the chunk marker; each group's bytes are
    /// concatenated in ascending chunk-name order — for chunks written by
    /// `save_file`, ascending offset order — into the file at the base
    /// name, replacing whatever was there; the chunks are removed, and the
    /// total number of bytes merged is returned. Everything else is
    /// untouched. Finalizing again with no new chunks finds none and
    /// returns zero.
    pub fn finalize_files(&mut self, pattern: &str) -> (r: usize)
        requires
            old(self).wf(),
            old(self).total_bytes() <= usize::MAX,
        ensures
            final(self).wf(),
            finalize_post(
                old(self)@,
                old(self).names(),
                pattern@,
                final(self)@,
                r as nat,
            ),
    {
        let ghost pre_imgs = self.images();
        let ghost pre_map = self@;
        let ghost patv = pattern@;

        let mut fullpat: String = pattern.to_owned();
        fullpat.append(".uploadTemporary.*");
        assert(fullpat@ == full_pattern(patv));

        // Split the entries into the selected chunks and everything else,
        // counting the chunk bytes.
        let mut kept: Vec<Entry> = Vec::new();
        let mut chunks: Vec<Entry> = Vec::new();
        let mut total: usize = 0;
        while self.entries.len() > 0
            invariant
                self.entries@.len() <= pre_imgs.len(),
                self.images() =~= pre_imgs.skip(pre_imgs.len() - self.entries@.len()),
                images_of(chunks@) =~= chunk_entries(
                    pre_imgs.take(pre_imgs.len() - self.entries@.len()),
                    patv,
                ),
                images_of(kept@) =~= kept_entries(
                    pre_imgs.take(pre_imgs.len() - self.entries@.len()),
                    patv,
                ),
                total as nat == bytes_total(
                    chunk_entries(pre_imgs.take(pre_imgs.len() - self.entries@.len()), patv),
                ),
                bytes_total(pre_imgs) <= usize::MAX,
                fullpat@ == full_pattern(patv),
                patv == pattern@,
                pre_imgs == old(self).images(),
            decreases self.entries@.len(),
        {
            let ghost k = pre_imgs.len() - self.entries@.len();
            let ghost rem0 = self.images();
            let e = self.entries.remove(0);
            proof {
                assert(e@ == rem0[0]);
                assert(e@ == pre_imgs[k as int]);
                assert(self.images() =~= pre_imgs.skip(k + 1)) by {
                    assert forall|i: int| 0 <= i < self.entries@.len() implies self.images()[i]
                        == pre_imgs.skip(k + 1)[i] by {
                        assert(self.entries@[i] == self.entries@[i]);
                        assert(self.images()[i] == rem0[i + 1]);
                    }
                }
                assert(pre_imgs.take(k + 1).drop_last() =~= pre_imgs.take(k as int));
                assert(pre_imgs.take(k + 1).last() == pre_imgs[k as int]);
            }
            let is_chunk: bool = if glob_match(fullpat.as_str(), e.name.as_str()) {
                match find_sub(e.name.as_str(), ".uploadTemporary.") {
                    Some(_) => true,
                    None => false,
                }
            } else {
                false
            };
            assert(is_chunk == is_chunk_name(patv, e@.name));
            if is_chunk {
                proof {
                    lemma_chunk_entries_total(pre_imgs.take(k + 1), patv);
                    lemma_bytes_total_take(pre_imgs, k + 1);
                    let c1 = chunk_entries(pre_imgs.take(k + 1), patv);
                    assert(c1 == chunk_entries(pre_imgs.take(k as int), patv).push(
                        pre_imgs[k as int],
                    ));
                    assert(c1.drop_last() =~= chunk_entries(pre_imgs.take(k as int), patv));
                    assert(c1.last() == pre_imgs[k as int]);
                    assert(bytes_total(c1) == bytes_total(
                        chunk_entries(pre_imgs.take(k as int), patv),
                    ) + pre_imgs[k as int].data.len());
                }
                let dlen = e.data.len();
                let ghost chunks_old = chunks@;
                chunks.push(e);
                total = total + dlen;
                proof {
                    assert(images_of(chunks@) =~= images_of(chunks_old).push(
                        pre_imgs[k as int],
                    ));
                }
            } else {
                let ghost kept_old = kept@;
                kept.push(e);
                proof {
                    assert(images_of(kept@) =~= images_of(kept_old).push(pre_imgs[k as int]));
                }
            }
        }
        proof {
            assert(pre_imgs.take(pre_imgs.len() as int) =~= pre_imgs);
        }
        let ghost chents = chunk_entries(pre_imgs, patv);
        let ghost chn = names_of(chents);
        proof {
            lemma_chunk_entries_are_chunks(pre_imgs, patv);
        }

        // Gather the chunks into groups by base name.
        let mut groups: Vec<ChunkGroup> = Vec::new();
        while chunks.len() > 0
            invariant
                chunks@.len() <= chents.len(),
                images_of(chunks@) =~= chents.skip(chents.len() - chunks@.len()),
                groups@.map_values(|g: ChunkGroup| g.base@) =~= bases_of(
                    chn.take(chents.len() - chunks@.len()),
                ),
                forall|gi: int|
                    0 <= gi < groups@.len() ==> images_of((#[trigger] groups@[gi]).items@)
                        =~= group_entries(
                        chents.take(chents.len() - chunks@.len()),
                        groups@[gi].base@,
                    ),
                chents == chunk_entries(pre_imgs, patv),
                chn == names_of(chents),
                forall|i: int|
                    0 <= i < chents.len() ==> is_chunk_name(patv, (#[trigger] chents[i]).name),
            decreases chunks@.len(),
        {
            let ghost k2 = chents.len() - chunks@.len();
            let ghost chunks_old = chunks@;
            let e = chunks.remove(0);
            proof {
                assert(e@ == images_of(chunks_old)[0]);
                assert(e@ == chents[k2 as int]);
                assert(images_of(chunks@) =~= chents.skip(k2 + 1)) by {
                    assert forall|i: int| 0 <= i < chunks@.len() implies images_of(chunks@)[i]
                        == chents.skip(k2 + 1)[i] by {
                        assert(images_of(chunks@)[i] == images_of(chunks_old)[i + 1]);
                    }
                }
                assert(chents.take(k2 + 1).drop_last() =~= chents.take(k2 as int));
                assert(chents.take(k2 + 1).last() == chents[k2 as int]);
                assert(chn.take(k2 + 1).drop_last() =~= chn.take(k2 as int));
                assert(chn.take(k2 + 1).last() == chn[k2 as int]);
                assert(chn[k2 as int] == chents[k2 as int].name);
                assert(is_chunk_name(patv, e@.name));
            }
            match find_sub(e.name.as_str(), ".uploadTemporary.") {
                None => {
                    proof {
                        assert(false);
                    }
                },
                Some(pos) => {
                    let base: String = e.name.as_str().substring_char(0, pos).to_owned();
                    assert(base@ =~= base_of(e@.name));
                    let gn = groups.len();
                    let mut gi: usize = 0;
                    while gi < gn && !str_eq(groups[gi].base.as_str(), base.as_str())
                        invariant
                            gi <= gn,
                            gn == groups@.len(),
                            forall|q: int|
                                0 <= q < gi ==> (#[trigger] groups@[q]).base@ != base@,
                        decreases gn - gi,
                    {
                        gi = gi + 1;
                    }
                    proof {
                        lemma_bases_distinct(chn.take(k2 as int));
                    }
                    let ghost groups_old = groups@;
                    let ghost bases_old = bases_of(chn.take(k2 as int));
                    if gi < gn {
                        assert(groups@[gi as int].base@ == base@);
                        assert(bases_old.contains(base@)) by {
                            assert(groups_old.map_values(|g: ChunkGroup| g.base@)[gi as int]
                                == base@);
                        }
                        let mut g = groups.remove(gi);
                        g.items.push(e);
                        groups.insert(gi, g);
                        proof {
                            assert forall|q: int|
                                0 <= q < groups@.len() implies (#[trigger] groups@[q]).base@
                                == groups_old[q].base@ by {
                                if q < gi {
                                    assert(groups@[q] == groups_old.remove(gi as int).insert(
                                        gi as int,
                                        groups@[gi as int],
                                    )[q]);
                                }
                            }
                            assert(groups@.map_values(|g2: ChunkGroup| g2.base@) =~= bases_of(
                                chn.take(k2 + 1),
                            )) by {
                                assert(bases_old.contains(base_of(chn.take(k2 + 1).last())));
                                assert(bases_of(chn.take(k2 + 1)) == bases_old);
                                assert forall|q: int|
                                    0 <= q < groups@.len() implies groups@.map_values(
                                    |g2: ChunkGroup| g2.base@,
                                )[q] == bases_old[q] by {
                                    assert(groups_old.map_values(|g2: ChunkGroup| g2.base@)[q]
                                        == groups_old[q].base@);
                                }
                            }
                            assert forall|q: int|
                                0 <= q < groups@.len() implies images_of(
                                (#[trigger] groups@[q]).items@,
                            ) =~= group_entries(chents.take(k2 + 1), groups@[q].base@) by {
                                if q == gi {
                                    assert(groups@[q].items@ =~= groups_old[q].items@.push(e));
                                    assert(images_of(groups@[q].items@) =~= images_of(
                                        groups_old[q].items@,
                                    ).push(e@));
                                    assert(base_of(chents.take(k2 + 1).last().name) == base@);
                                } else {
                                    assert(groups@[q] == groups_old[q]);
                                    assert(groups@[q].base@ != base@) by {
                                        assert(groups_old.map_values(
                                            |g2: ChunkGroup| g2.base@,
                                        )[q] == groups_old[q].base@);
                                        assert(groups_old.map_values(
                                            |g2: ChunkGroup| g2.base@,
                                        )[gi as int] == base@);
                                        assert(bases_old[q] != bases_old[gi as int]);
                                    }
                                    assert(base_of(chents.take(k2 + 1).last().name) == base@);
                                }
                            }
                        }
                    } else {
                        proof {
                            assert(!bases_old.contains(base@)) by {
                                if bases_old.contains(base@) {
                                    let q = choose|q: int|
                                        0 <= q < bases_old.len() && bases_old[q] == base@;
                                    assert(groups_old.map_values(|g2: ChunkGroup| g2.base@)[q]
                                        == base@);
                                    assert(groups_old[q].base@ == base@);
                                }
                            }
                            lemma_group_entries_empty_take(chents, k2 as int, base@);
                        }
                        let mut items: Vec<Entry> = Vec::new();
                        items.push(e);
                        groups.push(ChunkGroup { base, items });
                        proof {
                            assert(groups@.drop_last() =~= groups_old);
                            assert(groups@.map_values(|g2: ChunkGroup| g2.base@) =~= bases_of(
                                chn.take(k2 + 1),
                            )) by {
                                assert(bases_of(chn.take(k2 + 1)) == bases_old.push(
                                    base_of(chn.take(k2 + 1).last()),
                                ));
                                assert forall|q: int|
                                    0 <= q < groups@.len() implies groups@.map_values(
                                    |g2: ChunkGroup| g2.base@,
                                )[q] == bases_old.push(base@)[q] by {
                                    if q < groups@.len() - 1 {
                                        assert(groups@[q] == groups_old[q]);
                                        assert(groups_old.map_values(
                                            |g2: ChunkGroup| g2.base@,
                                        )[q] == groups_old[q].base@);
                                    } else {
                                        assert(groups@[q].base@ == base@);
                                    }
                                }
                            }
                            assert forall|q: int|
                                0 <= q < groups@.len() implies images_of(
                                (#[trigger] groups@[q]).items@,
                            ) =~= group_entries(chents.take(k2 + 1), groups@[q].base@) by {
                                assert(base_of(chents.take(k2 + 1).last().name) == base@);
                                if q < groups@.len() - 1 {
                                    assert(groups@[q] == groups_old[q]);
                                    assert(groups@[q].base@ != base@) by {
                                        assert(groups_old.map_values(
                                            |g2: ChunkGroup| g2.base@,
                                        )[q] == groups_old[q].base@);
                                    }
                                } else {
                                    assert(groups@[q].items@ =~= Seq::<Entry>::empty().push(e));
                                    assert(images_of(groups@[q].items@) =~= Seq::<
                                        EntryImage,
                                    >::empty().push(e@));
                                    assert(group_entries(chents.take(k2 as int), base@)
                                        =~= Seq::<EntryImage>::empty());
                                }
                            }
                        }
                    }
                },
            }
        }
        proof {
            assert(chents.take(chents.len() as int) =~= chents);
            assert(chn.take(chents.len() as int) =~= chn);
        }

        // Put back everything that was not a chunk, then merge each group.
        self.entries = kept;
        let ghost kept_imgs = kept_entries(pre_imgs, patv);
        let ghost m_kept = map_of(kept_imgs);
        let ghost bs = bases_of(chn);
        proof {
            lemma_filter_distinct(pre_imgs, patv);
            assert(self.wf());
            assert(self@ == m_kept);
            lemma_all_assoc_of_map(pre_imgs);
            lemma_filter_assoc(pre_imgs, patv, pre_map);
            lemma_bases_distinct(chn);
            assert(bs.take(0) =~= Seq::<Seq<char>>::empty());
        }
        while groups.len() > 0
            invariant
                self.wf(),
                groups@.len() <= bs.len(),
                groups@.map_values(|g: ChunkGroup| g.base@) =~= bs.skip(
                    bs.len() - groups@.len(),
                ),
                forall|gi: int|
                    0 <= gi < groups@.len() ==> images_of((#[trigger] groups@[gi]).items@)
                        =~= group_entries(chents, groups@[gi].base@),
                forall|b: Seq<char>| #[trigger]
                    bs.take(bs.len() - groups@.len()).contains(b) ==> self@.contains_key(b)
                        && self@[b] == merged_data(pre_map, sort_lex(group_of(chn, b))),
                forall|k: Seq<char>| #[trigger]
                    m_kept.contains_key(k) && !bs.take(bs.len() - groups@.len()).contains(k)
                        ==> self@.contains_key(k) && self@[k] == m_kept[k],
                forall|k: Seq<char>| #[trigger]
                    self@.contains_key(k) ==> m_kept.contains_key(k) || bs.take(
                        bs.len() - groups@.len(),
                    ).contains(k),
                all_assoc(chents, pre_map),
                bs == bases_of(chn),
                chn == names_of(chents),
                chents == chunk_entries(pre_imgs, patv),
                m_kept == map_of(kept_imgs),
                kept_imgs == kept_entries(pre_imgs, patv),
                pre_map == map_of(pre_imgs),
                distinct_names(pre_imgs),
                forall|i: int, j: int| 0 <= i < j < bs.len() ==> bs[i] != bs[j],
            decreases groups@.len(),
        {
            let ghost g_done = bs.len() - groups@.len();
            let ghost groups_old = groups@;
            let g = groups.remove(0);
            let ChunkGroup { base: gb, items: gitems } = g;
            let ghost b = gb@;
            proof {
                assert(groups_old.map_values(|g2: ChunkGroup| g2.base@)[0] == b);
                assert(b == bs[g_done as int]);
                assert(images_of(gitems@) =~= group_entries(chents, b)) by {
                    assert(groups_old[0].items@ == gitems@);
                    assert(groups_old.map_values(|g2: ChunkGroup| g2.base@)[0]
                        == groups_old[0].base@);
                }
                assert forall|q: int| 0 <= q < groups@.len() implies (#[trigger] groups@[q]).base@
                    == bs.skip(g_done + 1)[q] by {
                    assert(groups@[q] == groups_old[q + 1]);
                    assert(groups_old.map_values(|g2: ChunkGroup| g2.base@)[q + 1]
                        == groups_old[q + 1].base@);
                    assert(bs.skip(g_done as int)[q + 1] == bs.skip(g_done + 1)[q]);
                }
                assert(groups@.map_values(|g2: ChunkGroup| g2.base@) =~= bs.skip(g_done + 1));
                assert forall|gi: int| 0 <= gi < groups@.len() implies images_of(
                    (#[trigger] groups@[gi]).items@,
                ) =~= group_entries(chents, groups@[gi].base@) by {
                    assert(groups@[gi] == groups_old[gi + 1]);
                }
                lemma_group_assoc(chents, b, pre_map);
            }
            let sorted = sort_entries(gitems, Ghost(pre_map));
            let ghost snames = sort_lex(group_of(chn, b));
            proof {
                lemma_group_names_of_entries(chents, b);
                let gnames = group_of(chn, b);
                lemma_lex_total_ordering();
                gnames.lemma_sort_by_ensures(crate::strutil::lex_leq_rel());
                assert(names_of(images_of(gitems@)) =~= gnames);
                vstd::seq_lib::lemma_sorted_unique(
                    names_of(images_of(sorted@)),
                    snames,
                    crate::strutil::lex_leq_rel(),
                );
                assert(names_of(images_of(sorted@)) == snames);
            }
            let mut buf: Vec<u8> = Vec::new();
            let mut rem = sorted;
            while rem.len() > 0
                invariant
                    rem@.len() <= snames.len(),
                    names_of(images_of(rem@)) =~= snames.skip(snames.len() - rem@.len()),
                    buf@ == merged_data(pre_map, snames.take(snames.len() - rem@.len())),
                    all_assoc(images_of(rem@), pre_map),
                decreases rem@.len(),
            {
                let ghost done = snames.len() - rem@.len();
                let ghost rem_old = rem@;
                let mut e2 = rem.remove(0);
                proof {
                    assert(e2@ == images_of(rem_old)[0]);
                    assert(names_of(images_of(rem_old))[0] == images_of(rem_old)[0].name);
                    assert(snames.skip(done as int)[0] == snames[done as int]);
                    assert(images_of(rem_old)[0].name == snames[done as int]);
                    assert(pre_map.contains_key(e2@.name) && pre_map[e2@.name] == e2@.data);
                    assert(names_of(images_of(rem@)) =~= snames.skip(done + 1)) by {
                        assert forall|i: int| 0 <= i < rem@.len() implies names_of(
                            images_of(rem@),
                        )[i] == snames.skip(done + 1)[i] by {
                            assert(rem@[i] == rem_old[i + 1]);
                            assert(names_of(images_of(rem_old))[i + 1]
                                == images_of(rem_old)[i + 1].name);
                        }
                    }
                    assert(all_assoc(images_of(rem@), pre_map)) by {
                        assert forall|i: int|
                            0 <= i < images_of(rem@).len() implies pre_map.contains_key(
                            (#[trigger] images_of(rem@)[i]).name,
                        ) && pre_map[images_of(rem@)[i].name] == images_of(rem@)[i].data by {
                            assert(rem@[i] == rem_old[i + 1]);
                            assert(images_of(rem@)[i] == images_of(rem_old)[i + 1]);
                        }
                    }
                    assert(snames.take(done + 1).drop_last() =~= snames.take(done as int));
                    assert(snames.take(done + 1).last() == snames[done as int]);
                }
                buf.append(&mut e2.data);
            }
            proof {
                assert(snames.take(snames.len() as int) =~= snames);
                assert(buf@ == merged_data(pre_map, snames));
            }
            let ghost self_old_map = self@;
            self.put_file(gb, buf);
            proof {
                assert(bs.take(g_done + 1).drop_last() =~= bs.take(g_done as int));
                assert(bs.take(g_done + 1).last() == bs[g_done as int]);
                assert forall|b2: Seq<char>| #[trigger]
                    bs.take(g_done + 1).contains(b2) implies self@.contains_key(b2) && self@[b2]
                    == merged_data(pre_map, sort_lex(group_of(chn, b2))) by {
                    if b2 == b {
                    } else {
                        let q = choose|q: int|
                            0 <= q < bs.take(g_done + 1).len() && #[trigger] bs.take(
                                g_done + 1,
                            )[q] == b2;
                        assert(bs.take(g_done as int)[q] == b2);
                        assert(bs.take(g_done as int).contains(b2));
                    }
                }
                assert forall|k: Seq<char>| #[trigger]
                    m_kept.contains_key(k) && !bs.take(g_done + 1).contains(k) implies self@
                    .contains_key(k) && self@[k] == m_kept[k] by {
                    assert(!bs.take(g_done as int).contains(k)) by {
                        if bs.take(g_done as int).contains(k) {
                            let q = choose|q: int|
                                0 <= q < g_done && #[trigger] bs.take(g_done as int)[q] == k;
                            assert(bs.take(g_done + 1)[q] == k);
                        }
                    }
                    assert(k != b) by {
                        assert(bs.take(g_done + 1)[g_done as int] == b);
                    }
                }
                assert forall|k: Seq<char>| #[trigger]
                    self@.contains_key(k) implies m_kept.contains_key(k) || bs.take(
                    g_done + 1,
                ).contains(k) by {
                    if k == b {
                        assert(bs.take(g_done + 1)[g_done as int] == b);
                    } else {
                        assert(self_old_map.contains_key(k));
                        if bs.take(g_done as int).contains(k) {
                            let q = choose|q: int|
                                0 <= q < g_done && #[trigger] bs.take(g_done as int)[q] == k;
                            assert(bs.take(g_done + 1)[q] == k);
                        }
                    }
                }
            }
        }
        proof {
            assert(bs.take(bs.len() as int) =~= bs);
            lemma_chunk_names_of_entries(pre_imgs, patv);
            assert(chn =~= chunk_names(old(self).names(), patv));
            lemma_names_total_assoc(chents, pre_map);
            assert(total as nat == names_total(pre_map, chn));
            let ch_post = chunk_names(old(self).names(), patv);
            assert(ch_post == chn);
            assert forall|k: Seq<char>| #[trigger]
                pre_map.contains_key(k) && !is_chunk_name(patv, k) && !bs.contains(k) implies self@
                .contains_key(k) && self@[k] == pre_map[k] by {
                lemma_kept_map(pre_imgs, patv, k);
            }
            assert forall|k: Seq<char>| #[trigger]
                self@.contains_key(k) implies pre_map.contains_key(k) || bs.contains(k) by {
                if m_kept.contains_key(k) {
                    lemma_kept_map(pre_imgs, patv, k);
                }
            }
            assert forall|k: Seq<char>| #[trigger]
                is_chunk_name(patv, k) && !bs.contains(k) implies !self@.contains_key(k) by {
                if self@.contains_key(k) {
                    lemma_kept_map(pre_imgs, patv, k);
                }
            }
        }
        total
    }
}

proof fn lemma_group_entries_empty_take(chents: Seq<EntryImage>, k2: int, b: Seq<char>)
    requires
        0 <= k2 <= chents.len(),
        !bases_of(names_of(chents).take(k2)).contains(b),
    ensures
        group_entries(chents.take(k2), b) =~= Seq::<EntryImage>::empty(),
{
    assert(names_of(chents.take(k2)) =~= names_of(chents).take(k2));
    lemma_group_entries_empty(chents.take(k2), b);
}

proof fn lemma_map_of_update(entries: Seq<EntryImage>, i: int, e: EntryImage)
    requires
        distinct_names(entries),
        0 <= i < entries.len(),
        entries[i].name == e.name,
    ensures
        map_of(entries.update(i, e)) =~= map_of(entries).insert(e.name, e.data),
        distinct_names(entries.update(i, e)),
    decreases entries.len(),
{
    assert forall|a: int, b: int| 0 <= a < b < entries.update(i, e).len() implies (
    #[trigger] entries.update(i, e)[a]).name != (#[trigger] entries.update(i, e)[b]).name by {
        assert(entries[a].name != entries[b].name);
    }
    if i == entries.len() - 1 {
        assert(entries.update(i, e).drop_last() =~= entries.drop_last());
        assert(entries.update(i, e).last() == e);
    } else {
        assert(entries.update(i, e).drop_last() =~= entries.drop_last().update(i, e));
        assert(entries.update(i, e).last() == entries.last());
        assert(entries.drop_last()[i] == entries[i]);
        lemma_map_of_update(entries.drop_last(), i, e);
        assert(entries.last().name != e.name);
    }
}

proof fn lemma_bytes_total_update(entries: Seq<EntryImage>, i: int, e: EntryImage)
    requires
        0 <= i < entries.len(),
    ensures
        bytes_total(entries.update(i, e)) <= bytes_total(entries) + e.data.len(),
    decreases entries.len(),
{
    if i == entries.len() - 1 {
        assert(entries.update(i, e).drop_last() =~= entries.drop_last());
    } else {
        assert(entries.update(i, e).drop_last() =~= entries.drop_last().update(i, e));
        assert(entries.update(i, e).last() == entries.last());
        lemma_bytes_total_update(entries.drop_last(), i, e);
    }
}

} // verus!
