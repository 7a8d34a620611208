//! Renumbering a set of sibling task directories into a contiguous sequence.
//!
//! At renumber time a name's ordinal is exactly three digits, optionally
//! followed by a dot and a digit run (`001`, `001.5`, `002.25_notes`).  The
//! matched names are sorted by the numeric value of that decimal ordinal,
//! ties keeping their scan order, and are reassigned plain three-digit
//! ordinals `000, 001, 002, ...` in the sorted order.  Decimal ordinals are
//! an input sorting aid only; they never appear in an output name.

use vstd::prelude::*;

use crate::ordinal::chars_lt;
use crate::ordinal::chars_lt_at;
use crate::ordinal::digit_run_end;
use crate::ordinal::format3;
use crate::ordinal::format_ordinal;
use crate::ordinal::has_ordinal_prefix;
use crate::ordinal::is_digit;
use crate::ordinal::lemma_chars_lt_at_irreflexive;
use crate::ordinal::lemma_chars_lt_at_transitive;
use crate::ordinal::lemma_chars_lt_equal;
use crate::ordinal::lemma_digit_run_end;
use crate::ordinal::ordinal_value;
use crate::ordinal::parse_ordinal;
use crate::ordinal::scan_digits;
use crate::ordinal::starts_with_ordinal;

verus! {

/// Length of the ordinal prefix matched at renumber time: exactly three
/// digits, optionally followed by a dot and a (possibly empty) digit run.
pub open spec fn matched_len(s: Seq<char>) -> int
    recommends
        has_ordinal_prefix(s),
{
    if s.len() > 3 && s[3] == '.' {
        digit_run_end(s, 4)
    } else {
        3
    }
}

/// The name with its matched ordinal prefix removed.  Unlike creation-time
/// stripping, a leading separator in the remainder is preserved.
pub open spec fn remainder(s: Seq<char>) -> Seq<char>
    recommends
        has_ordinal_prefix(s),
{
    s.subrange(matched_len(s), s.len() as int)
}

/// A digit sequence with its trailing zeros removed.
pub open spec fn strip_trailing_zeros(s: Seq<char>) -> Seq<char>
    decreases s.len(),
{
    if s.len() > 0 && s.last() == '0' {
        strip_trailing_zeros(s.drop_last())
    } else {
        s
    }
}

/// The fractional digits of a name's decimal ordinal, normalized by removing
/// trailing zeros: `001.50` has fraction `5`; `001` and `001.0` have the
/// empty fraction.
pub open spec fn frac_part(s: Seq<char>) -> Seq<char>
    recommends
        has_ordinal_prefix(s),
{
    if s.len() > 3 && s[3] == '.' {
        strip_trailing_zeros(s.subrange(4, digit_run_end(s, 4)))
    } else {
        Seq::<char>::empty()
    }
}

/// Strict numeric order on the decimal ordinals of two prefixed names.
/// Fractions carry no trailing zeros, so comparing them lexicographically
/// digit by digit is exactly comparing the decimal fractions they denote.
pub open spec fn ord_lt(a: Seq<char>, b: Seq<char>) -> bool
    recommends
        has_ordinal_prefix(a),
        has_ordinal_prefix(b),
{
    ||| ordinal_value(a) < ordinal_value(b)
    ||| (ordinal_value(a) == ordinal_value(b) && chars_lt(frac_part(a), frac_part(b)))
}

/// Numeric equality of the decimal ordinals of two prefixed names.
pub open spec fn ord_eq(a: Seq<char>, b: Seq<char>) -> bool
    recommends
        has_ordinal_prefix(a),
        has_ordinal_prefix(b),
{
    ordinal_value(a) == ordinal_value(b) && frac_part(a) == frac_part(b)
}

/// One directory name prepared for sorting: its parsed ordinal parts and its
/// position in the scan order.
pub struct SortEntry {
    pub name: String,
    pub ord: u32,
    pub frac: Vec<char>,
    pub pos: usize,
}

/// Strict total order on sort entries: by integer ordinal, then by
/// normalized fraction, then by scan position.  The position tiebreak makes
/// the order total over entries with distinct positions, which is what keeps
/// the sort stable.
pub open spec fn entry_lt(a: SortEntry, b: SortEntry) -> bool {
    ||| a.ord < b.ord
    ||| (a.ord == b.ord && chars_lt(a.frac@, b.frac@))
    ||| (a.ord == b.ord && a.frac@ == b.frac@ && a.pos < b.pos)
}

pub proof fn lemma_entry_lt_transitive(a: SortEntry, b: SortEntry, c: SortEntry)
    requires
        entry_lt(a, b),
        entry_lt(b, c),
    ensures
        entry_lt(a, c),
{
    if a.ord == b.ord && b.ord == c.ord {
        if chars_lt(a.frac@, b.frac@) && chars_lt(b.frac@, c.frac@) {
            lemma_chars_lt_at_transitive(a.frac@, b.frac@, c.frac@, 0);
        }
    }
}

pub proof fn lemma_entry_lt_total(a: SortEntry, b: SortEntry)
    requires
        !entry_lt(a, b),
        !entry_lt(b, a),
    ensures
        a.ord == b.ord,
        a.frac@ == b.frac@,
        a.pos == b.pos,
{
    lemma_chars_lt_equal(a.frac@, b.frac@, 0);
    assert(a.frac@.skip(0) =~= a.frac@);
    assert(b.frac@.skip(0) =~= b.frac@);
}

/// Strict lexicographic comparison of two digit vectors from position `i`.
fn chars_lt_from(a: &Vec<char>, b: &Vec<char>, i: usize) -> (r: bool)
    ensures
        r == chars_lt_at(a@, b@, i as int),
    decreases b@.len() - i,
{
    if i >= b.len() {
        false
    } else if i >= a.len() {
        true
    } else if a[i] == b[i] {
        chars_lt_from(a, b, i + 1)
    } else {
        a[i] < b[i]
    }
}

/// Decides the strict sort order between two entries.
fn entry_before(a: &SortEntry, b: &SortEntry) -> (r: bool)
    ensures
        r == entry_lt(*a, *b),
{
    if a.ord < b.ord {
        true
    } else if a.ord > b.ord {
        false
    } else if chars_lt_from(&a.frac, &b.frac, 0) {
        true
    } else if chars_lt_from(&b.frac, &a.frac, 0) {
        false
    } else {
        proof {
            lemma_chars_lt_equal(a.frac@, b.frac@, 0);
            assert(a.frac@.skip(0) =~= a.frac@);
            assert(b.frac@.skip(0) =~= b.frac@);
        }
        a.pos < b.pos
    }
}

/// The position just past the last non-`'0'` character of `s` in
/// `lo .. k`; removing the tail from there is removing trailing zeros.
fn trim_zero_tail(s: &str, lo: usize, k: usize) -> (m: usize)
    requires
        lo <= k <= s@.len(),
    ensures
        lo <= m <= k,
        strip_trailing_zeros(s@.subrange(lo as int, k as int)) =~= s@.subrange(
            lo as int,
            m as int,
        ),
    decreases k,
{
    if k > lo && s.get_char(k - 1) == '0' {
        proof {
            assert(s@.subrange(lo as int, k as int).last() == '0');
            assert(s@.subrange(lo as int, k as int).drop_last() =~= s@.subrange(
                lo as int,
                k - 1,
            ));
        }
        trim_zero_tail(s, lo, k - 1)
    } else {
        proof {
            if k > lo {
                assert(s@.subrange(lo as int, k as int).last() == s@[k - 1]);
            }
        }
        k
    }
}

/// Extracts the normalized fractional digits of a name's decimal ordinal.
fn frac_digits(s: &str) -> (r: Vec<char>)
    requires
        has_ordinal_prefix(s@),
    ensures
        r@ == frac_part(s@),
{
    let n = s.unicode_len();
    let mut r: Vec<char> = Vec::new();
    if n > 3 && s.get_char(3) == '.' {
        let end = scan_digits(s, 4);
        let m = trim_zero_tail(s, 4, end);
        let mut i: usize = 4;
        while i < m
            invariant
                4 <= i <= m <= s@.len(),
                r@ =~= s@.subrange(4, i as int),
            decreases m - i,
        {
            r.push(s.get_char(i));
            i += 1;
        }
        proof {
            assert(r@ =~= frac_part(s@));
        }
    } else {
        proof {
            assert(r@ =~= frac_part(s@));
        }
    }
    r
}

/// Length of the matched ordinal prefix of `s`.
fn matched_prefix_len(s: &str) -> (m: usize)
    requires
        has_ordinal_prefix(s@),
    ensures
        m as int == matched_len(s@),
        3 <= m <= s@.len(),
    {
    let n = s.unicode_len();
    if n > 3 && s.get_char(3) == '.' {
        proof {
            lemma_digit_run_end(s@, 4);
        }
        scan_digits(s, 4)
    } else {
        3
    }
}

/// Builds the new name of the entry sorted to position `i`: a plain
/// three-digit ordinal directly followed by the stripped remainder.
fn renumbered_name(s: &str, i: u32) -> (r: String)
    requires
        has_ordinal_prefix(s@),
        i <= 999,
    ensures
        r@ == format3(i as int) + remainder(s@),
{
    let m = matched_prefix_len(s);
    let prefix = format_ordinal(i);
    prefix.concat(s.substring_char(m, s.unicode_len()))
}

/// The views of the names that carry an ordinal prefix, in scan order.
pub open spec fn matched(names: Seq<String>) -> Seq<Seq<char>>
    decreases names.len(),
{
    if names.len() == 0 {
        Seq::<Seq<char>>::empty()
    } else if has_ordinal_prefix(names.last()@) {
        matched(names.drop_last()).push(names.last()@)
    } else {
        matched(names.drop_last())
    }
}

pub proof fn lemma_matched_props(names: Seq<String>)
    ensures
        matched(names).len() <= names.len(),
        forall|k: int|
            0 <= k < matched(names).len() ==> has_ordinal_prefix(#[trigger] matched(names)[k]),
    decreases names.len(),
{
    if names.len() > 0 {
        lemma_matched_props(names.drop_last());
    }
}

/// A sort entry correctly describes the matched name at its scan position.
pub open spec fn entry_wf(e: SortEntry, m: Seq<Seq<char>>) -> bool {
    &&& e.pos < m.len()
    &&& e.name@ == m[e.pos as int]
    &&& has_ordinal_prefix(e.name@)
    &&& e.ord as int == ordinal_value(e.name@)
    &&& e.frac@ == frac_part(e.name@)
}

/// Parses each prefixed name into a sort entry tagged with its scan position.
fn build_entries(names: &Vec<String>) -> (v: Vec<SortEntry>)
    ensures
        v@.len() == matched(names@).len(),
        forall|k: int|
            0 <= k < v@.len() ==> entry_wf(#[trigger] v@[k], matched(names@)) && v@[k].pos == k,
{
    let mut v: Vec<SortEntry> = Vec::new();
    let mut i: usize = 0;
    while i < names.len()
        invariant
            i <= names@.len(),
            v@.len() == matched(names@.subrange(0, i as int)).len(),
            forall|k: int|
                0 <= k < v@.len() ==> entry_wf(
                    #[trigger] v@[k],
                    matched(names@.subrange(0, i as int)),
                ) && v@[k].pos == k,
        decreases names@.len() - i,
    {
        let ghost pre = names@.subrange(0, i as int);
        let s = &names[i];
        if starts_with_ordinal(s.as_str()) {
            let e = SortEntry {
                name: s.clone(),
                ord: parse_ordinal(s.as_str()),
                frac: frac_digits(s.as_str()),
                pos: v.len(),
            };
            v.push(e);
        }
        proof {
            let post = names@.subrange(0, i + 1);
            assert(post.drop_last() =~= pre);
            assert(post.last() == names@[i as int]);
        }
        i += 1;
    }
    proof {
        assert(names@.subrange(0, names@.len() as int) =~= names@);
    }
    v
}

/// Entries in strictly increasing sort order.
pub open spec fn entries_sorted(s: Seq<SortEntry>) -> bool {
    forall|i: int, j: int| 0 <= i < j < s.len() ==> entry_lt(#[trigger] s[i], #[trigger] s[j])
}

proof fn lemma_insert_contains<A>(s: Seq<A>, j: int, e: A)
    requires
        0 <= j <= s.len(),
    ensures
        forall|x: A| #[trigger] s.insert(j, e).contains(x) <==> s.contains(x) || x == e,
{
    s.insert_ensures(j, e);
    let t = s.insert(j, e);
    assert forall|x: A| #[trigger] t.contains(x) implies s.contains(x) || x == e by {
        let idx = choose|idx: int| 0 <= idx < t.len() && t[idx] == x;
        if idx < j {
            assert(s[idx] == x);
        } else if idx > j {
            assert(s[idx - 1] == x);
        }
    };
    assert forall|x: A| s.contains(x) || x == e implies #[trigger] t.contains(x) by {
        if s.contains(x) {
            let idx = choose|idx: int| 0 <= idx < s.len() && s[idx] == x;
            if idx < j {
                assert(t[idx] == x);
            } else {
                assert(t[idx + 1] == x);
            }
        } else {
            assert(t[j] == x);
        }
    };
}

/// The position where `e` belongs in the sorted prefix `out[..j]`, found by
/// walking back over entries greater than `e`.
fn insert_pos_from(out: &Vec<SortEntry>, e: &SortEntry, j: usize) -> (r: usize)
    requires
        j <= out@.len(),
        entries_sorted(out@),
        forall|q: int| j <= q < out@.len() ==> entry_lt(*e, #[trigger] out@[q]),
    ensures
        r <= out@.len(),
        forall|q: int| r <= q < out@.len() ==> entry_lt(*e, #[trigger] out@[q]),
        r > 0 ==> !entry_lt(*e, out@[r - 1]),
    decreases j,
{
    if j == 0 {
        0
    } else if entry_before(e, &out[j - 1]) {
        insert_pos_from(out, e, j - 1)
    } else {
        j
    }
}

/// Stable sort of the entries: strictly ordered output holding exactly the
/// input entries.  Positions must be distinct; they are the tiebreak that
/// makes the order strict and the sort stable.
fn sort_entries(v: Vec<SortEntry>) -> (r: Vec<SortEntry>)
    requires
        forall|i: int, j: int|
            0 <= i < j < v@.len() ==> (#[trigger] v@[i].pos) != (#[trigger] v@[j].pos),
    ensures
        r@.len() == v@.len(),
        entries_sorted(r@),
        forall|e: SortEntry| #[trigger] r@.contains(e) <==> v@.contains(e),
{
    let ghost orig = v@;
    let mut src = v;
    let mut out: Vec<SortEntry> = Vec::new();
    while src.len() > 0
        invariant
            src@ == orig.subrange(orig.len() - src@.len(), orig.len() as int),
            out@.len() + src@.len() == orig.len(),
            entries_sorted(out@),
            forall|e: SortEntry| #[trigger] out@.contains(e) <==> orig.subrange(
                0,
                orig.len() - src@.len(),
            ).contains(e),
            forall|i: int, j: int|
                0 <= i < j < orig.len() ==> (#[trigger] orig[i].pos) != (#[trigger] orig[j].pos),
        decreases src@.len(),
    {
        let ghost src0 = src@;
        let ghost k = orig.len() - src0.len();
        let ghost prefix = orig.subrange(0, k as int);
        let e = src.remove(0);
        proof {
            assert(e == orig[k as int]);
            assert(src@ =~= orig.subrange(k + 1, orig.len() as int));
            assert forall|x: SortEntry| #[trigger] out@.contains(x) implies x.pos != e.pos by {
                let idx = choose|idx: int| 0 <= idx < prefix.len() && prefix[idx] == x;
                assert(orig[idx] == x);
                assert(orig[idx].pos != orig[k as int].pos);
            };
        }
        let j = insert_pos_from(&out, &e, out.len());
        proof {
            if j > 0 {
                assert(out@.contains(out@[j - 1]));
                if !entry_lt(out@[j - 1], e) {
                    lemma_entry_lt_total(e, out@[j - 1]);
                    assert(false);
                }
            }
            assert forall|q: int| 0 <= q < j implies entry_lt(#[trigger] out@[q], e) by {
                if q < j - 1 {
                    lemma_entry_lt_transitive(out@[q], out@[j - 1], e);
                }
            };
        }
        let ghost out0 = out@;
        out.insert(j, e);
        proof {
            out0.insert_ensures(j as int, e);
            lemma_insert_contains(out0, j as int, e);
            assert forall|i1: int, i2: int|
                0 <= i1 < i2 < out@.len() implies entry_lt(
                #[trigger] out@[i1],
                #[trigger] out@[i2],
            ) by {
                if i1 < j && i2 > j {
                    assert(out@[i2] == out0[i2 - 1]);
                    assert(entry_lt(out0[i1], out0[i2 - 1]));
                }
            };
            let prefix2 = orig.subrange(0, k + 1);
            assert(prefix2 =~= prefix.insert(prefix.len() as int, orig[k as int]));
            lemma_insert_contains(prefix, prefix.len() as int, orig[k as int]);
            assert forall|x: SortEntry| #[trigger] out@.contains(x) <==> prefix2.contains(x) by {
                assert(out@.contains(x) <==> out0.contains(x) || x == e);
                assert(prefix2.contains(x) <==> prefix.contains(x) || x == orig[k as int]);
            };
        }
    }
    proof {
        assert(orig.subrange(0, orig.len() as int) =~= orig);
    }
    out
}

/// The views of the old names in a rename plan.
pub open spec fn old_names(pairs: Seq<(String, String)>) -> Seq<Seq<char>> {
    pairs.map_values(|p: (String, String)| p.0@)
}

/// The views of the new names in a rename plan.
pub open spec fn new_names(pairs: Seq<(String, String)>) -> Seq<Seq<char>> {
    pairs.map_values(|p: (String, String)| p.1@)
}

/// A permutation of `0 .. n`.
pub open spec fn valid_perm(perm: Seq<int>, n: int) -> bool {
    &&& perm.len() == n
    &&& forall|i: int| 0 <= i < n ==> 0 <= #[trigger] perm[i] < n
    &&& forall|i: int, j: int| 0 <= i < j < n ==> perm[i] != perm[j]
}

/// What a renumbering of the matched names `m` (in scan order) is: `olds`
/// lists `m` permuted into numeric ordinal order with ties kept in scan
/// order, and `news` reassigns contiguous zero-padded three-digit ordinals
/// in that order, each directly followed by the stripped remainder.
pub open spec fn is_renumbering(
    m: Seq<Seq<char>>,
    olds: Seq<Seq<char>>,
    news: Seq<Seq<char>>,
    perm: Seq<int>,
) -> bool {
    &&& valid_perm(perm, m.len() as int)
    &&& olds.len() == m.len()
    &&& news.len() == m.len()
    &&& forall|i: int| 0 <= i < m.len() ==> #[trigger] olds[i] == m[perm[i]]
    &&& forall|i: int, j: int|
        0 <= i < j < m.len() ==> ord_lt(m[#[trigger] perm[i]], m[#[trigger] perm[j]]) || (ord_eq(
            m[perm[i]],
            m[perm[j]],
        ) && perm[i] < perm[j])
    &&& forall|i: int| 0 <= i < m.len() ==> #[trigger] news[i] == format3(i) + remainder(m[perm[i]])
}

/// Computes the old-name/new-name pairs that make the matched sibling names
/// contiguous.  Names without a three-digit ordinal prefix are excluded
/// entirely; the pairs list the matched names in numeric ordinal order with
/// ties kept in scan order.
pub fn compute_renumbering(names: &Vec<String>) -> (pairs: Vec<(String, String)>)
    requires
        names@.len() <= 1000,
    ensures
        pairs@.len() == matched(names@).len(),
        exists|perm: Seq<int>|
            is_renumbering(matched(names@), old_names(pairs@), new_names(pairs@), perm),
{
    let ghost m = matched(names@);
    proof {
        lemma_matched_props(names@);
    }
    let entries = build_entries(names);
    let ghost entries0 = entries@;
    proof {
        assert forall|i: int, j: int|
            0 <= i < j < entries0.len() implies (#[trigger] entries0[i].pos) != (
        #[trigger] entries0[j].pos) by {}
    }
    let sorted = sort_entries(entries);
    proof {
        assert forall|k: int| 0 <= k < sorted@.len() implies entry_wf(#[trigger] sorted@[k], m)
            && sorted@[k].pos == entries0[sorted@[k].pos as int].pos by {
            assert(sorted@.contains(sorted@[k]));
            let idx = choose|idx: int| 0 <= idx < entries0.len() && entries0[idx] == sorted@[k];
        };
    }
    let mut pairs: Vec<(String, String)> = Vec::new();
    let mut i: usize = 0;
    while i < sorted.len()
        invariant
            i <= sorted@.len(),
            sorted@.len() == m.len(),
            m.len() <= 1000,
            entries_sorted(sorted@),
            forall|k: int| 0 <= k < sorted@.len() ==> entry_wf(#[trigger] sorted@[k], m),
            pairs@.len() == i,
            forall|k: int|
                0 <= k < i ==> (#[trigger] pairs@[k]).0@ == sorted@[k].name@ && pairs@[k].1@
                    == format3(k) + remainder(sorted@[k].name@),
        decreases sorted@.len() - i,
    {
        let nm = sorted[i].name.clone();
        let fresh = renumbered_name(nm.as_str(), i as u32);
        pairs.push((nm, fresh));
        i += 1;
    }
    proof {
        let perm = Seq::new(m.len(), |i: int| sorted@[i].pos as int);
        assert forall|i: int, j: int|
            0 <= i < j < m.len() implies (#[trigger] sorted@[i]).pos != (#[trigger] sorted@[j]).pos by {
            if sorted@[i].pos == sorted@[j].pos {
                assert(sorted@.contains(sorted@[i]));
                assert(sorted@.contains(sorted@[j]));
                let idx1 = choose|idx: int| 0 <= idx < entries0.len() && entries0[idx] == sorted@[i];
                let idx2 = choose|idx: int| 0 <= idx < entries0.len() && entries0[idx] == sorted@[j];
                assert(idx1 == sorted@[i].pos);
                assert(idx2 == sorted@[j].pos);
                assert(sorted@[i] == sorted@[j]);
                assert(entry_lt(sorted@[i], sorted@[j]));
                lemma_chars_lt_at_irreflexive(sorted@[i].frac@, 0);
            }
        };
        assert(valid_perm(perm, m.len() as int));
        assert forall|i: int, j: int|
            0 <= i < j < m.len() implies ord_lt(m[#[trigger] perm[i]], m[#[trigger] perm[j]]) || (
        ord_eq(m[perm[i]], m[perm[j]]) && perm[i] < perm[j]) by {
            assert(entry_lt(sorted@[i], sorted@[j]));
            assert(sorted@[i].name@ == m[perm[i]]);
            assert(sorted@[j].name@ == m[perm[j]]);
        };
        assert(is_renumbering(m, old_names(pairs@), new_names(pairs@), perm));
    }
    pairs
}

/// ASCII whitespace, as it arrives around a console answer.
pub open spec fn is_ws(c: char) -> bool {
    c == ' ' || c == '\t' || c == '\n' || c == '\r'
}

/// The answer with leading and trailing whitespace removed.
pub open spec fn trimmed(s: Seq<char>) -> Seq<char>
    decreases s.len(),
{
    if s.len() > 0 && is_ws(s.first()) {
        trimmed(s.drop_first())
    } else if s.len() > 0 && is_ws(s.last()) {
        trimmed(s.drop_last())
    } else {
        s
    }
}

/// An affirmative console answer: `y` or `Y` once surrounding whitespace is
/// removed.  Any other answer declines.
pub open spec fn is_affirmative(s: Seq<char>) -> bool {
    trimmed(s) == seq!['y'] || trimmed(s) == seq!['Y']
}

/// Whether `c` is ASCII whitespace.
fn is_ws_char(c: char) -> (b: bool)
    ensures
        b == is_ws(c),
{
    c == ' ' || c == '\t' || c == '\n' || c == '\r'
}

/// Decides whether a console answer confirms the renumbering.
pub fn confirmation_grants(answer: &str) -> (b: bool)
    ensures
        b == is_affirmative(answer@),
    decreases answer@.len(),
{
    let n = answer.unicode_len();
    if n > 0 && is_ws_char(answer.get_char(0)) {
        let rest = answer.substring_char(1, n);
        proof {
            assert(answer@.drop_first() =~= rest@);
        }
        confirmation_grants(rest)
    } else if n > 0 && is_ws_char(answer.get_char(n - 1)) {
        let rest = answer.substring_char(0, n - 1);
        proof {
            assert(answer@.drop_last() =~= rest@);
        }
        confirmation_grants(rest)
    } else if n == 1 {
        let c = answer.get_char(0);
        proof {
            assert(trimmed(answer@) == answer@);
            if c == 'y' {
                assert(answer@ =~= seq!['y']);
            }
            if c == 'Y' {
                assert(answer@ =~= seq!['Y']);
            }
        }
        c == 'y' || c == 'Y'
    } else {
        proof {
            assert(trimmed(answer@) == answer@);
        }
        false
    }
}

/// The all-or-nothing confirmation gate: a granted confirmation keeps the
/// whole rename plan, a declined one drops every rename.
pub fn approved_renames(pairs: Vec<(String, String)>, proceed: bool) -> (r: Vec<(String, String)>)
    ensures
        proceed ==> r == pairs,
        !proceed ==> r@.len() == 0,
{
    if proceed {
        pairs
    } else {
        Vec::new()
    }
}

/// A digit character is recovered from its value.
proof fn lemma_digit_roundtrip(c: char)
    requires
        is_digit(c),
    ensures
        crate::ordinal::digit_char(crate::ordinal::digit_value(c)) == c,
{
}

/// The first three characters of a prefixed name render its ordinal value.
pub proof fn lemma_prefix_is_format3(s: Seq<char>)
    requires
        has_ordinal_prefix(s),
    ensures
        s.subrange(0, 3) =~= format3(ordinal_value(s)),
{
    let d0 = crate::ordinal::digit_value(s[0]);
    let d1 = crate::ordinal::digit_value(s[1]);
    let d2 = crate::ordinal::digit_value(s[2]);
    let v = ordinal_value(s);
    assert(v == d0 * 100 + d1 * 10 + d2);
    assert(v / 100 == d0);
    assert((v / 10) % 10 == d1);
    assert(v % 10 == d2);
    lemma_digit_roundtrip(s[0]);
    lemma_digit_roundtrip(s[1]);
    lemma_digit_roundtrip(s[2]);
}

/// A strictly increasing sequence of `n` values drawn from `0 .. n` is the
/// identity.
proof fn lemma_increasing_perm_identity(perm: Seq<int>, i: int)
    requires
        valid_perm(perm, perm.len() as int),
        forall|p: int, q: int| 0 <= p < q < perm.len() ==> #[trigger] perm[p] < #[trigger] perm[q],
        0 <= i < perm.len(),
    ensures
        perm[i] == i,
    decreases i,
{
    if i > 0 {
        lemma_increasing_perm_identity(perm, i - 1);
        assert(perm[i] > perm[i - 1]);
    }
    if i < perm.len() - 1 {
        lemma_increasing_perm_upper(perm, i);
    }
}

proof fn lemma_increasing_perm_upper(perm: Seq<int>, i: int)
    requires
        valid_perm(perm, perm.len() as int),
        forall|p: int, q: int| 0 <= p < q < perm.len() ==> #[trigger] perm[p] < #[trigger] perm[q],
        0 <= i < perm.len(),
    ensures
        perm[i] <= i,
    decreases perm.len() - i,
{
    if i < perm.len() - 1 {
        lemma_increasing_perm_upper(perm, i + 1);
        assert(perm[i] < perm[i + 1]);
    }
}

/// After a renumbering, every new name carries a plain three-digit ordinal
/// prefix, and the ordinals are exactly `0, 1, 2, ...` in order: distinct,
/// contiguous, starting at zero.
pub proof fn lemma_renumbered_ordinals_contiguous(
    m: Seq<Seq<char>>,
    olds: Seq<Seq<char>>,
    news: Seq<Seq<char>>,
    perm: Seq<int>,
)
    requires
        is_renumbering(m, olds, news, perm),
        m.len() <= 1000,
    ensures
        forall|i: int| 0 <= i < news.len() ==> has_ordinal_prefix(#[trigger] news[i]),
        forall|i: int| 0 <= i < news.len() ==> ordinal_value(#[trigger] news[i]) == i,
{
    assert forall|i: int|
        0 <= i < news.len() implies has_ordinal_prefix(#[trigger] news[i]) && ordinal_value(
        news[i],
    ) == i by {
        assert(news[i] == format3(i) + remainder(m[perm[i]]));
        assert(news[i][0] == format3(i)[0]);
        assert(news[i][1] == format3(i)[1]);
        assert(news[i][2] == format3(i)[2]);
        assert(i == (i / 100) * 100 + ((i / 10) % 10) * 10 + i % 100 % 10);
    };
}

/// Renumbering is idempotent: on a set of names that is already contiguous
/// (`000, 001, 002, ...` in scan order, with no decimal ordinals) every
/// computed rename maps a name to itself.
pub proof fn lemma_renumber_idempotent(
    m: Seq<Seq<char>>,
    olds: Seq<Seq<char>>,
    news: Seq<Seq<char>>,
    perm: Seq<int>,
)
    requires
        is_renumbering(m, olds, news, perm),
        forall|i: int| 0 <= i < m.len() ==> has_ordinal_prefix(#[trigger] m[i]),
        forall|i: int| 0 <= i < m.len() ==> ordinal_value(#[trigger] m[i]) == i,
        forall|i: int| 0 <= i < m.len() ==> matched_len(#[trigger] m[i]) == 3,
    ensures
        forall|i: int| 0 <= i < m.len() ==> #[trigger] olds[i] == m[i],
        forall|i: int| 0 <= i < m.len() ==> #[trigger] news[i] == m[i],
{
    assert forall|p: int, q: int|
        0 <= p < q < perm.len() implies #[trigger] perm[p] < #[trigger] perm[q] by {
        assert(ord_lt(m[perm[p]], m[perm[q]]) || (ord_eq(m[perm[p]], m[perm[q]]) && perm[p]
            < perm[q]));
        if ord_lt(m[perm[p]], m[perm[q]]) {
            assert(ordinal_value(m[perm[p]]) == perm[p]);
            assert(ordinal_value(m[perm[q]]) == perm[q]);
            if ordinal_value(m[perm[p]]) == ordinal_value(m[perm[q]]) {
                lemma_chars_lt_at_irreflexive(frac_part(m[perm[p]]), 0);
            }
        }
    };
    assert forall|i: int| 0 <= i < m.len() implies #[trigger] perm[i] == i by {
        lemma_increasing_perm_identity(perm, i);
    };
    assert forall|i: int| 0 <= i < m.len() implies #[trigger] news[i] == m[i] by {
        lemma_prefix_is_format3(m[i]);
        assert(news[i] == format3(i) + remainder(m[i]));
        assert(remainder(m[i]) == m[i].subrange(3, m[i].len() as int));
        assert(format3(i) =~= m[i].subrange(0, 3));
        assert(m[i].subrange(0, 3) + m[i].subrange(3, m[i].len() as int) =~= m[i]);
    };
}

} // verus!
