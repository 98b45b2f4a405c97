//! Character-sequence helpers: substring search, prefix and suffix tests,
//! lexicographic order, and fixed-width decimal encoding and decoding.
//!
//! File names carry the store's metadata (a chunk's offset, the gzip tag),
//! so the store's contracts are stated over these functions.

use vstd::prelude::*;
use vstd::string::*;

verus! {

/// True when `sub` occurs in `s` starting at position `i`.
pub open spec fn occurs_at(s: Seq<char>, sub: Seq<char>, i: int) -> bool {
    0 <= i && i + sub.len() <= s.len() && s.subrange(i, i + sub.len() as int) == sub
}

/// Position of the first occurrence of `sub` in `s` at or after `from`;
/// `s.len() + 1` when there is none.
pub open spec fn first_occurrence_from(s: Seq<char>, sub: Seq<char>, from: int) -> int
    decreases s.len() - from,
{
    if from < 0 || from + sub.len() > s.len() {
        s.len() as int + 1
    } else if sub.len() == 0 {
        from
    } else if occurs_at(s, sub, from) {
        from
    } else {
        first_occurrence_from(s, sub, from + 1)
    }
}

/// Position of the first occurrence of `sub` in `s`; `s.len() + 1` when none.
pub open spec fn first_occurrence(s: Seq<char>, sub: Seq<char>) -> int {
    first_occurrence_from(s, sub, 0)
}

/// True when `sub` occurs somewhere in `s`.
pub open spec fn contains_sub(s: Seq<char>, sub: Seq<char>) -> bool {
    first_occurrence(s, sub) <= s.len()
}

/// True when `p` is a prefix of `s`.
pub open spec fn is_prefix(p: Seq<char>, s: Seq<char>) -> bool {
    p.len() <= s.len() && s.subrange(0, p.len() as int) == p
}

/// True when `x` is a suffix of `s`.
pub open spec fn is_suffix(x: Seq<char>, s: Seq<char>) -> bool {
    x.len() <= s.len() && s.subrange(s.len() - x.len(), s.len() as int) == x
}

/// `first_occurrence_from` finds an occurrence and none lies before it.
pub proof fn lemma_first_occurrence_from(s: Seq<char>, sub: Seq<char>, from: int)
    requires
        0 <= from <= s.len(),
    ensures
        ({
            let r = first_occurrence_from(s, sub, from);
            &&& (r <= s.len() ==> from <= r && occurs_at(s, sub, r))
            &&& forall|j: int| from <= j < r ==> !occurs_at(s, sub, j)
            &&& (r > s.len() ==> r == s.len() + 1 && forall|j: int|
                from <= j ==> !occurs_at(s, sub, j))
        }),
    decreases s.len() - from,
{
    if from + sub.len() > s.len() {
        assert forall|j: int| from <= j implies !occurs_at(s, sub, j) by {}
    } else if sub.len() == 0 {
        assert(s.subrange(from, from) =~= sub);
    } else if occurs_at(s, sub, from) {
    } else {
        lemma_first_occurrence_from(s, sub, from + 1);
    }
}

/// The first occurrence from `from` is `i` when `i` matches and no position
/// in `[from, i)` does.
pub proof fn lemma_first_occurrence_is(s: Seq<char>, sub: Seq<char>, from: int, i: int)
    requires
        0 <= from <= i,
        occurs_at(s, sub, i),
        forall|j: int| from <= j < i ==> !occurs_at(s, sub, j),
    ensures
        first_occurrence_from(s, sub, from) == i,
    decreases i - from,
{
    if sub.len() == 0 {
        assert(s.subrange(from, from) =~= sub);
        assert(occurs_at(s, sub, from));
        assert(from == i);
        assert(first_occurrence_from(s, sub, from) == i);
    } else if from < i {
        lemma_first_occurrence_is(s, sub, from + 1, i);
        assert(!occurs_at(s, sub, from));
        assert(first_occurrence_from(s, sub, from) == first_occurrence_from(s, sub, from + 1));
    } else {
        assert(occurs_at(s, sub, from));
        assert(first_occurrence_from(s, sub, from) == i);
    }
}

/// Whether `sub` occurs in `s` at position `i`.
pub fn check_occurs_at(s: &str, sub: &str, i: usize, s_len: usize, sub_len: usize) -> (r: bool)
    requires
        s_len == s@.len(),
        sub_len == sub@.len(),
        i + sub_len <= s_len,
    ensures
        r == occurs_at(s@, sub@, i as int),
{
    let mut j: usize = 0;
    while j < sub_len
        invariant
            j <= sub_len,
            s_len == s@.len(),
            sub_len == sub@.len(),
            i + sub_len <= s_len,
            forall|k: int| 0 <= k < j ==> s@[i + k] == sub@[k],
        decreases sub_len - j,
    {
        if s.get_char(i + j) != sub.get_char(j) {
            assert(s@.subrange(i as int, i + sub@.len() as int)[j as int] != sub@[j as int]);
            return false;
        }
        j = j + 1;
    }
    assert(s@.subrange(i as int, i + sub@.len() as int) =~= sub@);
    true
}

/// Position of the first occurrence of `sub` in `s`, if any.
pub fn find_sub(s: &str, sub: &str) -> (r: Option<usize>)
    ensures
        ({
            let f = first_occurrence(s@, sub@);
            match r {
                Some(i) => i == f && occurs_at(s@, sub@, i as int),
                None => f == s@.len() + 1,
            }
        }),
{
    let s_len: usize = s.unicode_len();
    let sub_len: usize = sub.unicode_len();
    proof {
        lemma_first_occurrence_from(s@, sub@, 0);
    }
    if sub_len > s_len {
        return None;
    }
    if sub_len == 0 {
        assert(s@.subrange(0, 0) =~= sub@);
        proof {
            lemma_first_occurrence_is(s@, sub@, 0, 0);
        }
        return Some(0);
    }
    let bound: usize = s_len - sub_len;
    let mut i: usize = 0;
    loop
        invariant
            s_len == s@.len(),
            sub_len == sub@.len(),
            0 < sub_len <= s_len,
            bound == s_len - sub_len,
            i <= bound + 1,
            forall|j: int| 0 <= j < i ==> !occurs_at(s@, sub@, j),
        decreases s_len + 1 - i,
    {
        if i > bound {
            assert forall|j: int| 0 <= j implies !occurs_at(s@, sub@, j) by {}
            proof {
                lemma_first_occurrence_from(s@, sub@, 0);
            }
            return None;
        }
        if check_occurs_at(s, sub, i, s_len, sub_len) {
            proof {
                lemma_first_occurrence_is(s@, sub@, 0, i as int);
            }
            return Some(i);
        }
        i = i + 1;
    }
}

/// Whether the views of `a` and `b` are the same character sequence.
pub fn str_eq(a: &str, b: &str) -> (r: bool)
    ensures
        r == (a@ == b@),
{
    let a_len: usize = a.unicode_len();
    let b_len: usize = b.unicode_len();
    if a_len != b_len {
        return false;
    }
    let mut i: usize = 0;
    while i < a_len
        invariant
            a_len == a@.len(),
            b_len == b@.len(),
            a_len == b_len,
            i <= a_len,
            forall|k: int| 0 <= k < i ==> a@[k] == b@[k],
        decreases a_len - i,
    {
        if a.get_char(i) != b.get_char(i) {
            assert(a@ != b@);
            return false;
        }
        i = i + 1;
    }
    assert(a@ =~= b@);
    true
}

/// Whether `p` is a prefix of `s`.
pub fn starts_with_str(s: &str, p: &str) -> (r: bool)
    ensures
        r == is_prefix(p@, s@),
{
    let s_len: usize = s.unicode_len();
    let p_len: usize = p.unicode_len();
    if p_len > s_len {
        return false;
    }
    check_occurs_at(s, p, 0, s_len, p_len)
}

/// Whether `x` is a suffix of `s`.
pub fn ends_with_str(s: &str, x: &str) -> (r: bool)
    ensures
        r == is_suffix(x@, s@),
{
    let s_len: usize = s.unicode_len();
    let x_len: usize = x.unicode_len();
    if x_len > s_len {
        return false;
    }
    check_occurs_at(s, x, s_len - x_len, s_len, x_len)
}

/// Lexicographic order on character sequences, by code point.
pub open spec fn lex_leq(a: Seq<char>, b: Seq<char>) -> bool
    decreases a.len(),
{
    if a.len() == 0 {
        true
    } else if b.len() == 0 {
        false
    } else if a[0] != b[0] {
        (a[0] as u32) < (b[0] as u32)
    } else {
        lex_leq(a.drop_first(), b.drop_first())
    }
}

pub proof fn lemma_lex_refl(a: Seq<char>)
    ensures
        lex_leq(a, a),
    decreases a.len(),
{
    if a.len() > 0 {
        lemma_lex_refl(a.drop_first());
    }
}

pub proof fn lemma_lex_antisym(a: Seq<char>, b: Seq<char>)
    requires
        lex_leq(a, b),
        lex_leq(b, a),
    ensures
        a == b,
    decreases a.len(),
{
    if a.len() == 0 {
        assert(b.len() == 0);
        assert(a =~= b);
    } else {
        assert(b.len() > 0);
        if a[0] == b[0] {
            lemma_lex_antisym(a.drop_first(), b.drop_first());
            assert(a.drop_first().len() == b.drop_first().len());
            assert forall|k: int| 0 <= k < a.len() implies a[k] == b[k] by {
                if k > 0 {
                    assert(a.drop_first()[k - 1] == b.drop_first()[k - 1]);
                    assert(a.drop_first()[k - 1] == a[k]);
                    assert(b.drop_first()[k - 1] == b[k]);
                } else {
                    assert(a[0] == b[0]);
                }
            }
            assert(a =~= b);
        } else {
            assert((a[0] as u32) < (b[0] as u32));
            assert((b[0] as u32) < (a[0] as u32));
            assert(false);
        }
    }
}

pub proof fn lemma_lex_trans(a: Seq<char>, b: Seq<char>, c: Seq<char>)
    requires
        lex_leq(a, b),
        lex_leq(b, c),
    ensures
        lex_leq(a, c),
    decreases a.len(),
{
    if a.len() > 0 {
        assert(b.len() > 0);
        assert(c.len() > 0);
        if a[0] == b[0] && b[0] == c[0] {
            lemma_lex_trans(a.drop_first(), b.drop_first(), c.drop_first());
        }
    }
}

pub proof fn lemma_lex_connected(a: Seq<char>, b: Seq<char>)
    ensures
        lex_leq(a, b) || lex_leq(b, a),
    decreases a.len(),
{
    if a.len() > 0 && b.len() > 0 {
        lemma_lex_connected(a.drop_first(), b.drop_first());
        if a[0] != b[0] {
            lemma_char_code_inj(a[0], b[0]);
            assert((a[0] as u32) < (b[0] as u32) || (b[0] as u32) < (a[0] as u32));
        }
    }
}

/// Characters with the same code point are the same character.
proof fn lemma_char_code_inj(a: char, b: char)
    ensures
        a != b ==> (a as u32) != (b as u32),
{
    if (a as u32) == (b as u32) {
        vstd::utf8::char_u32_cast(a, a as u32);
        vstd::utf8::char_u32_cast(b, b as u32);
    }
}

/// `lex_leq` as a relation value, for sorting.
pub open spec fn lex_leq_rel() -> spec_fn(Seq<char>, Seq<char>) -> bool {
    |a: Seq<char>, b: Seq<char>| lex_leq(a, b)
}

/// `lex_leq` is a total order, in the sense `Seq::sort_by` asks for.
pub proof fn lemma_lex_total_ordering()
    ensures
        vstd::relations::total_ordering(lex_leq_rel()),
{
    let leq = lex_leq_rel();
    assert forall|a: Seq<char>| #[trigger] leq(a, a) by {
        lemma_lex_refl(a);
    }
    assert forall|a: Seq<char>, b: Seq<char>| #[trigger] leq(a, b) && #[trigger] leq(b, a)
        implies a == b by {
        lemma_lex_antisym(a, b);
    }
    assert forall|a: Seq<char>, b: Seq<char>, c: Seq<char>|
        #[trigger] leq(a, b) && #[trigger] leq(b, c) implies leq(a, c) by {
        lemma_lex_trans(a, b, c);
    }
    assert forall|a: Seq<char>, b: Seq<char>| !(#[trigger] leq(a, b)) implies leq(b, a) by {
        lemma_lex_connected(a, b);
    }
}

/// Dropping an equal prefix does not change the lexicographic comparison.
pub proof fn lemma_lex_skip(a: Seq<char>, b: Seq<char>, i: int)
    requires
        0 <= i <= a.len(),
        i <= b.len(),
        a.subrange(0, i) == b.subrange(0, i),
    ensures
        lex_leq(a, b) == lex_leq(a.skip(i), b.skip(i)),
    decreases i,
{
    if i > 0 {
        assert forall|k: int| 0 <= k < i implies a[k] == b[k] by {
            assert(a.subrange(0, i)[k] == a[k]);
            assert(b.subrange(0, i)[k] == b[k]);
            assert(a.subrange(0, i)[k] == b.subrange(0, i)[k]);
        }
        assert(a[0] == b[0]);
        assert(a.len() > 0 && b.len() > 0);
        assert(a.drop_first().subrange(0, i - 1) =~= b.drop_first().subrange(0, i - 1));
        lemma_lex_skip(a.drop_first(), b.drop_first(), i - 1);
        assert(a.drop_first().skip(i - 1) =~= a.skip(i));
        assert(b.drop_first().skip(i - 1) =~= b.skip(i));
    } else {
        assert(a.skip(0) =~= a);
        assert(b.skip(0) =~= b);
    }
}

/// Whether `a` comes no later than `b` in lexicographic order.
pub fn lex_le(a: &str, b: &str) -> (r: bool)
    ensures
        r == lex_leq(a@, b@),
{
    let a_len: usize = a.unicode_len();
    let b_len: usize = b.unicode_len();
    let mut i: usize = 0;
    loop
        invariant
            a_len == a@.len(),
            b_len == b@.len(),
            i <= a_len,
            i <= b_len,
            a@.subrange(0, i as int) == b@.subrange(0, i as int),
        decreases a_len - i,
    {
        proof {
            lemma_lex_skip(a@, b@, i as int);
        }
        if i == a_len {
            assert(a@.skip(i as int).len() == 0);
            return true;
        }
        if i == b_len {
            assert(b@.skip(i as int).len() == 0);
            assert(a@.skip(i as int).len() > 0);
            return false;
        }
        let ca = a.get_char(i);
        let cb = b.get_char(i);
        if ca != cb {
            assert(a@.skip(i as int)[0] == ca && b@.skip(i as int)[0] == cb);
            return (ca as u32) < (cb as u32);
        }
        i = i + 1;
        assert(a@.subrange(0, i as int) =~= b@.subrange(0, i as int));
    }
}

/// Whether `c` is a decimal digit.
pub open spec fn is_digit_char(c: char) -> bool {
    48 <= (c as u32) <= 57
}

/// The numeric value of a decimal digit character.
pub open spec fn digit_val(c: char) -> nat {
    ((c as u32) - 48) as nat
}

/// Whether every character of `s` is a decimal digit.
pub open spec fn all_digits(s: Seq<char>) -> bool {
    forall|i: int| 0 <= i < s.len() ==> is_digit_char(#[trigger] s[i])
}

/// The value of `s` read as a decimal numeral.
pub open spec fn dec_val(s: Seq<char>) -> nat
    decreases s.len(),
{
    if s.len() == 0 {
        0
    } else {
        dec_val(s.drop_last()) * 10 + digit_val(s.last())
    }
}

/// A decimal numeral's value grows (weakly) with each digit appended.
pub proof fn lemma_dec_val_take_monotone(s: Seq<char>, i: int, j: int)
    requires
        0 <= i <= j <= s.len(),
    ensures
        dec_val(s.take(i)) <= dec_val(s.take(j)),
    decreases j - i,
{
    if i < j {
        lemma_dec_val_take_monotone(s, i, j - 1);
        assert(s.take(j).drop_last() =~= s.take(j - 1));
        assert(dec_val(s.take(j)) == dec_val(s.take(j - 1)) * 10 + digit_val(s.take(j).last()));
    }
}

/// Parses a nonempty all-digit string as a `usize`; rejects anything else,
/// and any value above `usize::MAX`.
pub fn parse_usize_digits(s: &str) -> (r: Option<usize>)
    ensures
        ({
            let ok = s@.len() > 0 && all_digits(s@) && dec_val(s@) <= usize::MAX;
            match r {
                Some(v) => ok && v as nat == dec_val(s@),
                None => !ok,
            }
        }),
{
    let s_len: usize = s.unicode_len();
    if s_len == 0 {
        return None;
    }
    let mut acc: usize = 0;
    let mut i: usize = 0;
    while i < s_len
        invariant
            s_len == s@.len(),
            i <= s_len,
            forall|k: int| 0 <= k < i ==> is_digit_char(#[trigger] s@[k]),
            acc as nat == dec_val(s@.take(i as int)),
        decreases s_len - i,
    {
        let c = s.get_char(i);
        let cu: u32 = c as u32;
        if cu < 48 || cu > 57 {
            assert(!is_digit_char(s@[i as int]));
            return None;
        }
        let d: usize = (cu - 48) as usize;
        let shifted: usize = match acc.checked_mul(10) {
            Some(v) => v,
            None => {
                proof {
                    lemma_dec_val_take_monotone(s@, i as int + 1, s@.len() as int);
                    assert(s@.take(i as int + 1).drop_last() =~= s@.take(i as int));
                    assert(s@.take(s@.len() as int) =~= s@);
                }
                return None;
            },
        };
        let next: usize = match shifted.checked_add(d) {
            Some(v) => v,
            None => {
                proof {
                    lemma_dec_val_take_monotone(s@, i as int + 1, s@.len() as int);
                    assert(s@.take(i as int + 1).drop_last() =~= s@.take(i as int));
                    assert(s@.take(s@.len() as int) =~= s@);
                }
                return None;
            },
        };
        acc = next;
        i = i + 1;
        assert(s@.take(i as int).drop_last() =~= s@.take(i as int - 1));
    }
    assert(s@.take(s_len as int) =~= s@);
    Some(acc)
}

/// The digit character for a value below ten.
pub open spec fn digit_char_of(d: nat) -> char {
    if d == 0 {
        '0'
    } else if d == 1 {
        '1'
    } else if d == 2 {
        '2'
    } else if d == 3 {
        '3'
    } else if d == 4 {
        '4'
    } else if d == 5 {
        '5'
    } else if d == 6 {
        '6'
    } else if d == 7 {
        '7'
    } else if d == 8 {
        '8'
    } else {
        '9'
    }
}

/// `n` written as exactly `w` decimal digits, zero-padded on the left.
/// Only the value of `n` modulo `10^w` is represented.
pub open spec fn fixed_width_dec(n: nat, w: nat) -> Seq<char>
    decreases w,
{
    if w == 0 {
        Seq::empty()
    } else {
        fixed_width_dec(n / 10, (w - 1) as nat).push(digit_char_of(n % 10))
    }
}

pub proof fn lemma_fixed_width_dec_len(n: nat, w: nat)
    ensures
        fixed_width_dec(n, w).len() == w,
    decreases w,
{
    if w > 0 {
        lemma_fixed_width_dec_len(n / 10, (w - 1) as nat);
    }
}

/// Ten to the `w`.
pub open spec fn pow10(w: nat) -> nat
    decreases w,
{
    if w == 0 {
        1
    } else {
        10 * pow10((w - 1) as nat)
    }
}

/// The code point of a digit character: `'0'` plus the digit.
pub proof fn lemma_digit_char_val(d: nat)
    requires
        d < 10,
    ensures
        (digit_char_of(d) as u32) == 48 + d,
{
}

/// Strict order is kept when one character is pushed onto each of two
/// equal-length sequences in strict order.
pub proof fn lemma_lex_push_strict(x: Seq<char>, y: Seq<char>, c: char, d: char)
    requires
        x.len() == y.len(),
        lex_leq(x, y),
        x != y,
    ensures
        lex_leq(x.push(c), y.push(d)),
        x.push(c) != y.push(d),
    decreases x.len(),
{
    assert(x.push(c).drop_last() =~= x);
    assert(y.push(d).drop_last() =~= y);
    if x.len() == 0 {
        assert(y.len() == 0);
        assert(x =~= y) by {
            assert(x.len() == y.len());
        }
        assert(false);
    } else {
        assert(x.push(c)[0] == x[0]);
        assert(y.push(d)[0] == y[0]);
        if x[0] == y[0] {
            assert(x.drop_first() != y.drop_first()) by {
                if x.drop_first() == y.drop_first() {
                    assert forall|k: int| 0 <= k < x.len() implies x[k] == y[k] by {
                        if k > 0 {
                            assert(x.drop_first()[k - 1] == y.drop_first()[k - 1]);
                            assert(x.drop_first()[k - 1] == x[k]);
                            assert(y.drop_first()[k - 1] == y[k]);
                        }
                    }
                    assert(x =~= y);
                }
            }
            lemma_lex_push_strict(x.drop_first(), y.drop_first(), c, d);
            assert(x.push(c).drop_first() =~= x.drop_first().push(c));
            assert(y.push(d).drop_first() =~= y.drop_first().push(d));
        }
    }
}

/// Fixed-width decimal encoding preserves strict numeric order: for
/// `a < b` both below `10^w`, the `w`-digit encoding of `a` comes strictly
/// before that of `b` in lexicographic order.
pub proof fn lemma_fixed_width_order(a: nat, b: nat, w: nat)
    requires
        a < b,
        b < pow10(w),
    ensures
        lex_leq(fixed_width_dec(a, w), fixed_width_dec(b, w)),
        fixed_width_dec(a, w) != fixed_width_dec(b, w),
    decreases w,
{
    vstd::arithmetic::div_mod::lemma_fundamental_div_mod(a as int, 10);
    vstd::arithmetic::div_mod::lemma_fundamental_div_mod(b as int, 10);
    if w == 0 {
        assert(false);
    } else {
        let xa = fixed_width_dec(a / 10, (w - 1) as nat);
        let xb = fixed_width_dec(b / 10, (w - 1) as nat);
        lemma_fixed_width_dec_len(a / 10, (w - 1) as nat);
        lemma_fixed_width_dec_len(b / 10, (w - 1) as nat);
        assert(b / 10 < pow10((w - 1) as nat)) by {
            if b / 10 >= pow10((w - 1) as nat) {
                assert(10 * (b / 10) >= 10 * pow10((w - 1) as nat)) by (nonlinear_arith)
                    requires
                        b / 10 >= pow10((w - 1) as nat),
                ;
            }
        }
        if a / 10 == b / 10 {
            assert(a % 10 < b % 10);
            lemma_digit_char_val((a % 10) as nat);
            lemma_digit_char_val((b % 10) as nat);
            let ca = digit_char_of((a % 10) as nat);
            let cb = digit_char_of((b % 10) as nat);
            assert(xa == xb);
            assert(xa.subrange(0, xa.len() as int) =~= xa);
            assert(xa.push(ca).subrange(0, xa.len() as int) =~= xa);
            assert(xb.push(cb).subrange(0, xb.len() as int) =~= xb);
            lemma_lex_skip(xa.push(ca), xb.push(cb), xa.len() as int);
            assert(xa.push(ca).skip(xa.len() as int) =~= seq![ca]);
            assert(xb.push(cb).skip(xb.len() as int) =~= seq![cb]);
            assert(lex_leq(seq![ca], seq![cb])) by {
                assert(seq![ca][0] == ca && seq![cb][0] == cb);
                assert((ca as u32) < (cb as u32));
            }
            assert(xa.push(ca).last() != xb.push(cb).last());
        } else {
            assert(a / 10 < b / 10) by {
                vstd::arithmetic::div_mod::lemma_div_is_ordered(a as int, b as int, 10);
            }
            lemma_fixed_width_order(a / 10, b / 10, (w - 1) as nat);
            lemma_lex_push_strict(
                xa,
                xb,
                digit_char_of((a % 10) as nat),
                digit_char_of((b % 10) as nat),
            );
        }
    }
}

/// The single-character string for a digit value.
fn digit_str(d: usize) -> (r: &'static str)
    requires
        d < 10,
    ensures
        r@ =~= seq![digit_char_of(d as nat)],
{
    proof {
        reveal_strlit("0");
        reveal_strlit("1");
        reveal_strlit("2");
        reveal_strlit("3");
        reveal_strlit("4");
        reveal_strlit("5");
        reveal_strlit("6");
        reveal_strlit("7");
        reveal_strlit("8");
        reveal_strlit("9");
    }
    match d {
        0 => "0",
        1 => "1",
        2 => "2",
        3 => "3",
        4 => "4",
        5 => "5",
        6 => "6",
        7 => "7",
        8 => "8",
        _ => "9",
    }
}

/// `n` written as exactly `w` decimal digits, zero-padded on the left.
pub fn format_fixed_dec(n: usize, w: usize) -> (r: String)
    ensures
        r@ == fixed_width_dec(n as nat, w as nat),
    decreases w,
{
    if w == 0 {
        let r = String::new();
        assert(r@ =~= fixed_width_dec(n as nat, 0));
        r
    } else {
        let mut s = format_fixed_dec(n / 10, w - 1);
        let d: usize = n % 10;
        s.append(digit_str(d));
        assert(s@ =~= fixed_width_dec(n as nat, w as nat));
        s
    }
}

} // verus!
