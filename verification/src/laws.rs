//! The store's governing properties, stated and proved over the spec
//! functions that the store's contracts use: reassembly in offset order
//! from any arrival order, idempotence of finalize, preservation of the
//! gzip tag, and exactness of range reads.

use crate::store::{
    base_name_spec, base_of, bases_of, chunk_file_name_spec, chunk_marker, chunk_names,
    finalize_post, group_of, gz_marker, is_chunk_name, merged_data, names_total, offset_limit,
    slice_spec, sort_lex,
};
use crate::strutil::{
    contains_sub, first_occurrence, fixed_width_dec, lemma_first_occurrence_from,
    lemma_first_occurrence_is, lemma_fixed_width_dec_len, lemma_fixed_width_order,
    lemma_lex_skip, lemma_lex_total_ordering, lex_leq, lex_leq_rel, occurs_at, pow10,
};
use core::ops::Range;
use vstd::prelude::*;
use vstd::seq_lib::*;

verus! {

/// A base name is clean when appending the chunk marker to it puts the
/// first marker occurrence exactly at the seam: the base itself neither
/// contains the marker nor ends in a fragment that completes into one.
pub open spec fn clean_base(b: Seq<char>) -> bool {
    first_occurrence(b + chunk_marker(), chunk_marker()) == b.len()
}

/// The offset limit is ten to the twelfth, the capacity of the fixed-width
/// offset field.
proof fn lemma_offset_limit_is_pow10()
    ensures
        offset_limit() == pow10(12),
{
    reveal_with_fuel(pow10, 13);
}

/// A chunk name splits back into the base it was built from: the part
/// before the first marker is the base, for any clean base.
pub proof fn lemma_chunk_name_base(b: Seq<char>, tail: Seq<char>)
    requires
        clean_base(b),
    ensures
        contains_sub(b + chunk_marker() + tail, chunk_marker()),
        base_of(b + chunk_marker() + tail) == b,
{
    let m = chunk_marker();
    let name = b + m + tail;
    let l = b.len() as int;
    assert(m.len() > 0) by {
        reveal_strlit(".uploadTemporary.");
    }
    assert(occurs_at(name, m, l)) by {
        assert(name.subrange(l, l + m.len() as int) =~= m);
    }
    lemma_first_occurrence_from(b + m, m, 0);
    assert(occurs_at(b + m, m, l)) by {
        assert((b + m).subrange(l, l + m.len() as int) =~= m);
    }
    assert forall|j: int| 0 <= j < l implies !occurs_at(name, m, j) by {
        if occurs_at(name, m, j) {
            assert(occurs_at(b + m, m, j)) by {
                assert((b + m).subrange(j, j + m.len() as int) =~= name.subrange(
                    j,
                    j + m.len() as int,
                ));
            }
        }
    }
    lemma_first_occurrence_is(name, m, 0, l);
    assert(base_of(name) =~= b);
}

/// The base of a chunk name carries no chunk marker, so it is never
/// itself selected as a chunk; in particular a merged file cannot be
/// mistaken for a chunk.
pub proof fn lemma_base_not_chunk(pattern: Seq<char>, name: Seq<char>)
    requires
        contains_sub(name, chunk_marker()),
    ensures
        !is_chunk_name(pattern, base_of(name)),
{
    let m = chunk_marker();
    let f = first_occurrence(name, m);
    let b = base_of(name);
    lemma_first_occurrence_from(name, m, 0);
    assert(m.len() > 0) by {
        reveal_strlit(".uploadTemporary.");
    }
    assert(0 <= f <= name.len());
    assert(b.len() == f);
    lemma_first_occurrence_from(b, m, 0);
    let fb = first_occurrence(b, m);
    if fb <= b.len() {
        assert(occurs_at(b, m, fb));
        assert(occurs_at(name, m, fb)) by {
            assert(name.subrange(fb, fb + m.len() as int) =~= b.subrange(
                fb,
                fb + m.len() as int,
            ));
        }
        assert(fb < f);
        assert(false);
    }
}

/// Chunk names of one path stand in ascending lexicographic order exactly
/// when their offsets ascend: the fixed-width offset field makes name
/// order offset order.
pub proof fn lemma_chunk_name_order(path: Seq<char>, is_gzip: bool, a: nat, b: nat)
    requires
        a < b < offset_limit(),
    ensures
        lex_leq(
            chunk_file_name_spec(path, is_gzip, a),
            chunk_file_name_spec(path, is_gzip, b),
        ),
        chunk_file_name_spec(path, is_gzip, a) != chunk_file_name_spec(path, is_gzip, b),
{
    lemma_offset_limit_is_pow10();
    lemma_fixed_width_order(a, b, 12);
    let p = base_name_spec(path, is_gzip) + chunk_marker();
    let na = chunk_file_name_spec(path, is_gzip, a);
    let nb = chunk_file_name_spec(path, is_gzip, b);
    let da = fixed_width_dec(a, 12);
    let db = fixed_width_dec(b, 12);
    lemma_fixed_width_dec_len(a, 12);
    lemma_fixed_width_dec_len(b, 12);
    assert(na =~= p + da);
    assert(nb =~= p + db);
    assert((p + da).subrange(0, p.len() as int) =~= p);
    assert((p + db).subrange(0, p.len() as int) =~= p);
    lemma_lex_skip(p + da, p + db, p.len() as int);
    assert((p + da).skip(p.len() as int) =~= da);
    assert((p + db).skip(p.len() as int) =~= db);
    assert((p + da).skip(p.len() as int) != (p + db).skip(p.len() as int));
}

/// Sorting chunk names forgets arrival order: any two name sequences with
/// the same names in any order sort to the same sequence. With finalize's
/// contract this says the merged file does not depend on the order in
/// which the chunks were uploaded.
pub proof fn lemma_sort_permutation(n1: Seq<Seq<char>>, n2: Seq<Seq<char>>)
    requires
        n1.to_multiset() == n2.to_multiset(),
    ensures
        sort_lex(n1) == sort_lex(n2),
{
    lemma_lex_total_ordering();
    n1.lemma_sort_by_ensures(lex_leq_rel());
    n2.lemma_sort_by_ensures(lex_leq_rel());
    lemma_sorted_unique(sort_lex(n1), sort_lex(n2), lex_leq_rel());
}

/// Chunk names already in ascending offset order sort to themselves, so
/// the merged bytes are their data concatenated in ascending offset order.
pub proof fn lemma_sort_of_ascending(
    m: Map<Seq<char>, Seq<u8>>,
    path: Seq<char>,
    is_gzip: bool,
    offs: Seq<nat>,
    names: Seq<Seq<char>>,
)
    requires
        names.len() == offs.len(),
        forall|i: int| 0 <= i < names.len() ==> (#[trigger] offs[i]) < offset_limit(),
        forall|i: int|
            0 <= i < names.len() ==> (#[trigger] names[i]) == chunk_file_name_spec(
                path,
                is_gzip,
                offs[i],
            ),
        forall|i: int, j: int| 0 <= i < j < names.len() ==> offs[i] < offs[j],
    ensures
        sort_lex(names) == names,
        merged_data(m, sort_lex(names)) == merged_data(m, names),
{
    lemma_lex_total_ordering();
    names.lemma_sort_by_ensures(lex_leq_rel());
    assert(vstd::relations::sorted_by(names, lex_leq_rel())) by {
        assert forall|i: int, j: int| 0 <= i < j < names.len() implies lex_leq_rel()(
            names[i],
            names[j],
        ) by {
            lemma_chunk_name_order(path, is_gzip, offs[i], offs[j]);
        }
    }
    lemma_sorted_unique(sort_lex(names), names, lex_leq_rel());
}

/// Chunks covering `[0, N)` contiguously reassemble exactly: the merged
/// bytes have length `N`, and each chunk's bytes stand at its offset.
pub proof fn lemma_contiguous_reassembly(
    m: Map<Seq<char>, Seq<u8>>,
    names: Seq<Seq<char>>,
    offs: Seq<nat>,
)
    requires
        names.len() == offs.len(),
        names.len() > 0,
        forall|i: int| 0 <= i < names.len() ==> m.contains_key(#[trigger] names[i]),
        offs[0] == 0,
        forall|i: int|
            0 < i < names.len() ==> (#[trigger] offs[i]) == offs[i - 1] + m[names[i - 1]].len(),
    ensures
        merged_data(m, names).len() == offs.last() + m[names.last()].len(),
        forall|i: int, j: int|
            #![trigger m[names[i]][j]]
            0 <= i < names.len() && 0 <= j < m[names[i]].len() ==> merged_data(
                m,
                names,
            )[offs[i] + j] == m[names[i]][j],
    decreases names.len(),
{
    if names.len() == 1 {
        assert(merged_data(m, names) =~= merged_data(m, names.drop_last()) + m[names.last()]);
        assert(merged_data(m, names.drop_last()) =~= Seq::<u8>::empty());
        assert forall|i: int, j: int|
            #![trigger m[names[i]][j]]
            0 <= i < names.len() && 0 <= j < m[names[i]].len() implies merged_data(
            m,
            names,
        )[offs[i] + j] == m[names[i]][j] by {
            assert(i == 0 && offs[0] == 0);
            assert(merged_data(m, names)[j] == (merged_data(m, names.drop_last())
                + m[names.last()])[j]);
        }
    } else {
        let np = names.drop_last();
        let op = offs.drop_last();
        assert forall|i: int| 0 <= i < np.len() implies m.contains_key(#[trigger] np[i]) by {
            assert(np[i] == names[i]);
        }
        assert forall|i: int| 0 < i < np.len() implies (#[trigger] op[i]) == op[i - 1]
            + m[np[i - 1]].len() by {
            assert(offs[i] == offs[i - 1] + m[names[i - 1]].len());
        }
        lemma_contiguous_reassembly(m, np, op);
        let prev = merged_data(m, np);
        assert(prev.len() == op.last() + m[np.last()].len());
        assert(op.last() == offs[names.len() - 2]);
        assert(np.last() == names[names.len() - 2]);
        assert(offs.last() == offs[names.len() - 2] + m[names[names.len() - 2]].len());
        assert(prev.len() == offs.last());
        assert(merged_data(m, names) == prev + m[names.last()]);
        assert forall|i: int, j: int|
            #![trigger m[names[i]][j]]
            0 <= i < names.len() && 0 <= j < m[names[i]].len() implies merged_data(
            m,
            names,
        )[offs[i] + j] == m[names[i]][j] by {
            if i < names.len() - 1 {
                assert(np[i] == names[i]);
                assert(op[i] == offs[i]);
                assert(prev[offs[i] + j] == m[names[i]][j]);
                assert(offs[i] + j < prev.len()) by {
                    if i < names.len() - 2 {
                        assert(op[i + 1] == op[i] + m[np[i]].len());
                        lemma_offsets_ascend(m, np, op, i);
                    }
                }
                assert((prev + m[names.last()])[offs[i] + j] == prev[offs[i] + j]);
            } else {
                assert((prev + m[names.last()])[prev.len() + j] == m[names.last()][j]);
            }
        }
    }
}

/// Under contiguity the offsets ascend, so each chunk lies inside the
/// merged prefix that precedes later chunks.
proof fn lemma_offsets_ascend(
    m: Map<Seq<char>, Seq<u8>>,
    names: Seq<Seq<char>>,
    offs: Seq<nat>,
    i: int,
)
    requires
        names.len() == offs.len(),
        forall|t: int| 0 <= t < names.len() ==> m.contains_key(#[trigger] names[t]),
        forall|t: int|
            0 < t < names.len() ==> (#[trigger] offs[t]) == offs[t - 1] + m[names[t - 1]].len(),
        0 <= i < names.len(),
    ensures
        offs[i] + m[names[i]].len() <= offs.last() + m[names.last()].len(),
    decreases names.len() - i,
{
    if i < names.len() - 1 {
        assert(offs[i + 1] == offs[i] + m[names[i]].len());
        lemma_offsets_ascend(m, names, offs, i + 1);
    }
}

/// Finalize leaves no chunk behind: afterwards no name the pattern selects
/// is present.
pub proof fn lemma_finalize_clears_chunks(
    pre: Map<Seq<char>, Seq<u8>>,
    pre_names: Seq<Seq<char>>,
    pattern: Seq<char>,
    post: Map<Seq<char>, Seq<u8>>,
    total: nat,
)
    requires
        finalize_post(pre, pre_names, pattern, post, total),
    ensures
        forall|k: Seq<char>|
            #[trigger] post.contains_key(k) ==> !is_chunk_name(pattern, k),
{
    let ch = chunk_names(pre_names, pattern);
    let bs = bases_of(ch);
    lemma_chunk_names_selected(pre_names, pattern);
    assert forall|k: Seq<char>| #[trigger] post.contains_key(k) implies !is_chunk_name(
        pattern,
        k,
    ) by {
        if is_chunk_name(pattern, k) {
            if bs.contains(k) {
                lemma_bases_are_bases(ch, k);
            }
        }
    }
}

/// Every name finalize selects is a chunk name, so it carries the marker.
proof fn lemma_chunk_names_selected(names: Seq<Seq<char>>, pattern: Seq<char>)
    ensures
        forall|i: int|
            0 <= i < chunk_names(names, pattern).len() ==> is_chunk_name(
                pattern,
                #[trigger] chunk_names(names, pattern)[i],
            ),
    decreases names.len(),
{
    if names.len() > 0 {
        lemma_chunk_names_selected(names.drop_last(), pattern);
        let c = chunk_names(names, pattern);
        let cd = chunk_names(names.drop_last(), pattern);
        assert forall|i: int| 0 <= i < c.len() implies is_chunk_name(
            pattern,
            #[trigger] c[i],
        ) by {
            if i < cd.len() {
                assert(c[i] == cd[i]);
            }
        }
    }
}

/// Every member of the bases list is the base of some chunk name, hence
/// carries no marker and is no chunk name.
proof fn lemma_bases_are_bases(ch: Seq<Seq<char>>, k: Seq<char>)
    requires
        bases_of(ch).contains(k),
        forall|i: int| 0 <= i < ch.len() ==> contains_sub(#[trigger] ch[i], chunk_marker()),
    ensures
        forall|pattern: Seq<char>| !(#[trigger] is_chunk_name(pattern, k)),
    decreases ch.len(),
{
    if ch.len() > 0 {
        assert forall|i: int| 0 <= i < ch.drop_last().len() implies contains_sub(
            #[trigger] ch.drop_last()[i],
            chunk_marker(),
        ) by {
            assert(ch.drop_last()[i] == ch[i]);
        }
        assert(ch[ch.len() - 1] == ch.last());
        let rest = bases_of(ch.drop_last());
        if rest.contains(base_of(ch.last())) {
            lemma_bases_are_bases(ch.drop_last(), k);
        } else {
            if k == base_of(ch.last()) {
                assert forall|pattern: Seq<char>| !(#[trigger] is_chunk_name(pattern, k)) by {
                    lemma_base_not_chunk(pattern, ch.last());
                }
            } else {
                assert(rest.contains(k)) by {
                    let q = choose|q: int|
                        0 <= q < bases_of(ch).len() && #[trigger] bases_of(ch)[q] == k;
                    assert(q < rest.len());
                    assert(rest[q] == k);
                }
                lemma_bases_are_bases(ch.drop_last(), k);
            }
        }
    }
}

/// Among names none of which is a chunk, finalize selects nothing.
proof fn lemma_chunk_names_none(names: Seq<Seq<char>>, pattern: Seq<char>)
    requires
        forall|i: int| 0 <= i < names.len() ==> !is_chunk_name(pattern, #[trigger] names[i]),
    ensures
        chunk_names(names, pattern) =~= Seq::<Seq<char>>::empty(),
    decreases names.len(),
{
    if names.len() > 0 {
        assert(!is_chunk_name(pattern, names[names.len() - 1]));
        assert forall|i: int| 0 <= i < names.drop_last().len() implies !is_chunk_name(
            pattern,
            #[trigger] names.drop_last()[i],
        ) by {
            assert(names.drop_last()[i] == names[i]);
        }
        lemma_chunk_names_none(names.drop_last(), pattern);
    }
}

/// Finalizing twice is finalizing once: after a finalize, a second one
/// with the same pattern — its file names being exactly the keys left —
/// finds no chunks, changes nothing, and reports zero bytes merged.
pub proof fn lemma_finalize_idempotent(
    m1: Map<Seq<char>, Seq<u8>>,
    n1: Seq<Seq<char>>,
    pattern: Seq<char>,
    m2: Map<Seq<char>, Seq<u8>>,
    t2: nat,
    n2: Seq<Seq<char>>,
    m3: Map<Seq<char>, Seq<u8>>,
    t3: nat,
)
    requires
        finalize_post(m1, n1, pattern, m2, t2),
        finalize_post(m2, n2, pattern, m3, t3),
        forall|i: int| 0 <= i < n2.len() ==> m2.contains_key(#[trigger] n2[i]),
    ensures
        t3 == 0,
        m3 == m2,
{
    lemma_finalize_clears_chunks(m1, n1, pattern, m2, t2);
    assert forall|i: int| 0 <= i < n2.len() implies !is_chunk_name(
        pattern,
        #[trigger] n2[i],
    ) by {
        assert(m2.contains_key(n2[i]));
    }
    lemma_chunk_names_none(n2, pattern);
    let ch2 = chunk_names(n2, pattern);
    assert(ch2.len() == 0);
    assert(bases_of(ch2) =~= Seq::<Seq<char>>::empty());
    assert(t3 == names_total(m2, ch2));
    assert forall|k: Seq<char>| #[trigger] m2.contains_key(k) implies m3.contains_key(k)
        && m3[k] == m2[k] by {
        assert(!is_chunk_name(pattern, k));
        assert(!bases_of(ch2).contains(k));
    }
    assert forall|k: Seq<char>| #[trigger] m3.contains_key(k) implies m2.contains_key(k) by {
        assert(!bases_of(ch2).contains(k));
    }
    assert(m3 =~= m2);
}

/// A chunk written gzip-tagged survives finalize as the gzip-tagged file:
/// when the one chunk `pattern` selects is the gzip chunk of `path`, the
/// merged bytes stand at the gzip-tagged name, so a read of the plain
/// `path` finds the gzip variant and reports it.
pub proof fn lemma_gzip_preserved(
    m1: Map<Seq<char>, Seq<u8>>,
    n1: Seq<Seq<char>>,
    pattern: Seq<char>,
    m2: Map<Seq<char>, Seq<u8>>,
    t: nat,
    path: Seq<char>,
    start: nat,
    data: Seq<u8>,
)
    requires
        clean_base(path + gz_marker()),
        chunk_names(n1, pattern) =~= seq![
            chunk_file_name_spec(path, true, start),
        ],
        m1.contains_key(chunk_file_name_spec(path, true, start)),
        m1[chunk_file_name_spec(path, true, start)] == data,
        finalize_post(m1, n1, pattern, m2, t),
    ensures
        m2.contains_key(path + gz_marker()),
        m2[path + gz_marker()] == data,
        t == data.len(),
{
    let name = chunk_file_name_spec(path, true, start);
    let base = path + gz_marker();
    let ch = chunk_names(n1, pattern);
    lemma_chunk_name_base(base, fixed_width_dec(start, 12));
    assert(name =~= base + chunk_marker() + fixed_width_dec(start, 12));
    assert(base_of(name) == base);
    assert(ch.drop_last() =~= Seq::<Seq<char>>::empty());
    assert(ch.last() == name);
    assert(bases_of(ch) =~= seq![base]) by {
        assert(bases_of(ch) == bases_of(ch.drop_last()).push(base_of(ch.last())));
    }
    assert(bases_of(ch).contains(base)) by {
        assert(bases_of(ch)[0] == base);
    }
    let g = group_of(ch, base);
    assert(g =~= seq![name]) by {
        assert(group_of(ch.drop_last(), base) =~= Seq::<Seq<char>>::empty());
    }
    assert(sort_lex(g) == g) by {
        lemma_lex_total_ordering();
        g.lemma_sort_by_ensures(lex_leq_rel());
        assert(vstd::relations::sorted_by(g, lex_leq_rel()));
        lemma_sorted_unique(sort_lex(g), g, lex_leq_rel());
    }
    assert(merged_data(m1, g) =~= merged_data(m1, g.drop_last()) + m1[name]);
    assert(merged_data(m1, g.drop_last()) =~= Seq::<u8>::empty());
    assert(merged_data(m1, g) =~= data);
    assert(m2[base] == merged_data(m1, sort_lex(g)));
    assert(names_total(m1, ch) == names_total(m1, ch.drop_last()) + m1[name].len());
}

/// A nonempty run of chunk names that all share one base has exactly that
/// base, and forms its own group.
proof fn lemma_single_base_group(ch: Seq<Seq<char>>, b: Seq<char>)
    requires
        ch.len() > 0,
        forall|i: int| 0 <= i < ch.len() ==> base_of(#[trigger] ch[i]) == b,
    ensures
        bases_of(ch) =~= seq![b],
        group_of(ch, b) =~= ch,
    decreases ch.len(),
{
    assert(ch[ch.len() - 1] == ch.last());
    if ch.len() == 1 {
        assert(bases_of(ch.drop_last()) =~= Seq::<Seq<char>>::empty());
        assert(group_of(ch.drop_last(), b) =~= Seq::<Seq<char>>::empty());
    } else {
        assert forall|i: int| 0 <= i < ch.drop_last().len() implies base_of(
            #[trigger] ch.drop_last()[i],
        ) == b by {
            assert(ch.drop_last()[i] == ch[i]);
        }
        lemma_single_base_group(ch.drop_last(), b);
        assert(bases_of(ch.drop_last()).contains(b)) by {
            assert(bases_of(ch.drop_last())[0] == b);
        }
    }
}

/// Chunk uploads covering `[0, N)` in any arrival order reassemble, on
/// finalize, into a file that is byte-identical to the concatenation of
/// the chunks in ascending offset order: when the names the pattern
/// selects are — in some order — the chunk names of one logical path at
/// strictly increasing offsets starting at zero, each chunk abutting the
/// next, the merged file holds every chunk's bytes at its offset and
/// nothing else.
pub proof fn lemma_reassembly(
    pre: Map<Seq<char>, Seq<u8>>,
    pre_names: Seq<Seq<char>>,
    pattern: Seq<char>,
    post: Map<Seq<char>, Seq<u8>>,
    total: nat,
    path: Seq<char>,
    is_gzip: bool,
    offs: Seq<nat>,
)
    requires
        finalize_post(pre, pre_names, pattern, post, total),
        clean_base(base_name_spec(path, is_gzip)),
        offs.len() > 0,
        forall|i: int| 0 <= i < offs.len() ==> (#[trigger] offs[i]) < offset_limit(),
        forall|i: int, j: int| 0 <= i < j < offs.len() ==> offs[i] < offs[j],
        chunk_names(pre_names, pattern).to_multiset() == Seq::new(
            offs.len(),
            |i: int| chunk_file_name_spec(path, is_gzip, offs[i]),
        ).to_multiset(),
        forall|i: int|
            0 <= i < offs.len() ==> pre.contains_key(
                #[trigger] chunk_file_name_spec(path, is_gzip, offs[i]),
            ),
        offs[0] == 0,
        forall|i: int|
            0 < i < offs.len() ==> (#[trigger] offs[i]) == offs[i - 1] + pre[chunk_file_name_spec(
                path,
                is_gzip,
                offs[i - 1],
            )].len(),
    ensures
        ({
            let base = base_name_spec(path, is_gzip);
            let asc = Seq::new(offs.len(), |i: int| chunk_file_name_spec(path, is_gzip, offs[i]));
            let merged = post[base];
            &&& post.contains_key(base)
            &&& merged.len() == offs.last() + pre[asc.last()].len()
            &&& forall|i: int, j: int|
                #![trigger pre[asc[i]][j]]
                0 <= i < offs.len() && 0 <= j < pre[asc[i]].len() ==> merged[offs[i] + j]
                    == pre[asc[i]][j]
        }),
{
    broadcast use vstd::seq_lib::group_to_multiset_ensures;

    let base = base_name_spec(path, is_gzip);
    let asc = Seq::new(offs.len(), |i: int| chunk_file_name_spec(path, is_gzip, offs[i]));
    let ch = chunk_names(pre_names, pattern);
    assert forall|i: int| 0 <= i < asc.len() implies base_of(#[trigger] asc[i]) == base by {
        lemma_chunk_name_base(base, fixed_width_dec(offs[i], 12));
        assert(asc[i] =~= base + chunk_marker() + fixed_width_dec(offs[i], 12));
    }
    assert(ch.len() == asc.len()) by {
        assert(ch.to_multiset().len() == asc.to_multiset().len());
    }
    assert forall|i: int| 0 <= i < ch.len() implies base_of(#[trigger] ch[i]) == base by {
        assert(ch.to_multiset().contains(ch[i])) by {
            assert(ch.contains(ch[i]));
        }
        assert(asc.to_multiset().contains(ch[i]));
        assert(asc.contains(ch[i]));
        let q = choose|q: int| 0 <= q < asc.len() && asc[q] == ch[i];
        assert(base_of(asc[q]) == base);
    }
    lemma_single_base_group(ch, base);
    assert(bases_of(ch).contains(base)) by {
        assert(bases_of(ch)[0] == base);
    }
    assert(post.contains_key(base));
    assert(post[base] == merged_data(pre, sort_lex(group_of(ch, base))));
    assert(group_of(ch, base) == ch);
    lemma_sort_permutation(ch, asc);
    assert forall|i: int| 0 <= i < asc.len() implies (#[trigger] asc[i])
        == chunk_file_name_spec(path, is_gzip, offs[i]) by {}
    lemma_sort_of_ascending(pre, path, is_gzip, offs, asc);
    assert(post[base] == merged_data(pre, asc));
    assert forall|i: int| 0 < i < asc.len() implies (#[trigger] offs[i]) == offs[i - 1]
        + pre[asc[i - 1]].len() by {
        assert(asc[i - 1] == chunk_file_name_spec(path, is_gzip, offs[i - 1]));
    }
    lemma_contiguous_reassembly(pre, asc, offs);
}

/// A range read returns exactly the requested slice of the stored bytes,
/// clipped to end-of-file: bytes `[start, min(end, len))`, and nothing —
/// not an error — when the range lies wholly past the end.
pub proof fn lemma_range_read(b: Seq<u8>, rg: Range<usize>)
    requires
        rg.start <= rg.end,
    ensures
        rg.end <= b.len() ==> slice_spec(b, Some(rg)) == b.subrange(
            rg.start as int,
            rg.end as int,
        ),
        rg.start as int <= b.len() < rg.end ==> slice_spec(b, Some(rg)) == b.subrange(
            rg.start as int,
            b.len() as int,
        ),
        rg.start as int > b.len() ==> slice_spec(b, Some(rg)) == Seq::<u8>::empty(),
        slice_spec(b, None) == b,
{
    if rg.start as int > b.len() {
        assert(slice_spec(b, Some(rg)) =~= Seq::<u8>::empty());
    }
}

} // verus!
