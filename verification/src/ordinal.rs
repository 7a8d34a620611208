//! The ordinal-prefix grammar on task directory names.
//!
//! A task directory name optionally starts with a three-digit ordinal
//! (`007_report`).  Creation-time logic strips any leading digit run plus one
//! separator from a requested base name, and formats the next free ordinal as
//! a zero-padded three-digit prefix.

use vstd::prelude::*;

verus! {

/// The fixed separator between an ordinal prefix and the base name.
pub const SEPARATOR: char = '_';

/// A decimal digit character.
pub open spec fn is_digit(c: char) -> bool {
    '0' <= c && c <= '9'
}

/// The numeric value of a digit character.
pub open spec fn digit_value(c: char) -> int
    recommends
        is_digit(c),
{
    if c == '0' {
        0
    } else if c == '1' {
        1
    } else if c == '2' {
        2
    } else if c == '3' {
        3
    } else if c == '4' {
        4
    } else if c == '5' {
        5
    } else if c == '6' {
        6
    } else if c == '7' {
        7
    } else if c == '8' {
        8
    } else {
        9
    }
}

/// The digit character for a value in `0 ..= 9`.
pub open spec fn digit_char(d: int) -> char {
    if d == 0 {
        '0'
    } else if d == 1 {
        '1'
    } else if d == 2 {
        '2'
    } else if d == 3 {
        '3'
    } else if d == 4 {
        '4'
    } else if d == 5 {
        '5'
    } else if d == 6 {
        '6'
    } else if d == 7 {
        '7'
    } else if d == 8 {
        '8'
    } else {
        '9'
    }
}

/// A name carries an ordinal prefix when it starts with three digits.
pub open spec fn has_ordinal_prefix(s: Seq<char>) -> bool {
    s.len() >= 3 && is_digit(s[0]) && is_digit(s[1]) && is_digit(s[2])
}

/// The numeric value of a three-digit ordinal prefix.
pub open spec fn ordinal_value(s: Seq<char>) -> int
    recommends
        has_ordinal_prefix(s),
{
    digit_value(s[0]) * 100 + digit_value(s[1]) * 10 + digit_value(s[2])
}

/// The zero-padded three-digit rendering of `n` in `0 ..= 999`.
pub open spec fn format3(n: int) -> Seq<char> {
    seq![digit_char(n / 100), digit_char((n / 10) % 10), digit_char(n % 10)]
}

/// Whether `c` is an ASCII decimal digit.
pub fn is_digit_char(c: char) -> (b: bool)
    ensures
        b == is_digit(c),
{
    '0' <= c && c <= '9'
}

/// The numeric value of a digit character.
pub fn digit_of(c: char) -> (d: u32)
    requires
        is_digit(c),
    ensures
        d as int == digit_value(c),
        d <= 9,
{
    match c {
        '0' => 0,
        '1' => 1,
        '2' => 2,
        '3' => 3,
        '4' => 4,
        '5' => 5,
        '6' => 6,
        '7' => 7,
        '8' => 8,
        _ => 9,
    }
}

/// Whether `s` starts with a three-digit ordinal prefix.
pub fn starts_with_ordinal(s: &str) -> (b: bool)
    ensures
        b == has_ordinal_prefix(s@),
{
    if s.unicode_len() < 3 {
        return false;
    }
    is_digit_char(s.get_char(0)) && is_digit_char(s.get_char(1)) && is_digit_char(s.get_char(2))
}

/// The numeric value of the three-digit ordinal prefix of `s`.
pub fn parse_ordinal(s: &str) -> (r: u32)
    requires
        has_ordinal_prefix(s@),
    ensures
        r as int == ordinal_value(s@),
        r <= 999,
{
    let d0 = digit_of(s.get_char(0));
    let d1 = digit_of(s.get_char(1));
    let d2 = digit_of(s.get_char(2));
    d0 * 100 + d1 * 10 + d2
}

/// The one-character string for a digit value.
fn digit_str(d: u32) -> (r: &'static str)
    requires
        d <= 9,
    ensures
        r@ =~= seq![digit_char(d as int)],
{
    proof {
        reveal_strlit("0");
        reveal_strlit("1");
        reveal_strlit("2");
        reveal_strlit("3");
        reveal_strlit("4");
        reveal_strlit("5");
        reveal_strlit("6");
        reveal_strlit("7");
        reveal_strlit("8");
        reveal_strlit("9");
    }
    match d {
        0 => "0",
        1 => "1",
        2 => "2",
        3 => "3",
        4 => "4",
        5 => "5",
        6 => "6",
        7 => "7",
        8 => "8",
        _ => "9",
    }
}

/// The first position at or after `i` where `s` stops being a digit.
pub open spec fn digit_run_end(s: Seq<char>, i: int) -> int
    recommends
        0 <= i <= s.len(),
    decreases s.len() - i,
{
    if i < s.len() && is_digit(s[i]) {
        digit_run_end(s, i + 1)
    } else {
        i
    }
}

pub proof fn lemma_digit_run_end(s: Seq<char>, i: int)
    requires
        0 <= i <= s.len(),
    ensures
        i <= digit_run_end(s, i) <= s.len(),
        forall|j: int| i <= j < digit_run_end(s, i) ==> is_digit(#[trigger] s[j]),
        digit_run_end(s, i) < s.len() ==> !is_digit(s[digit_run_end(s, i)]),
    decreases s.len() - i,
{
    if i < s.len() && is_digit(s[i]) {
        lemma_digit_run_end(s, i + 1);
    }
}

/// The first position at or after `i` where `s` stops being a digit.
pub fn scan_digits(s: &str, i: usize) -> (r: usize)
    requires
        i <= s@.len(),
    ensures
        r == digit_run_end(s@, i as int),
        i <= r <= s@.len(),
    decreases s@.len() - i,
{
    proof {
        lemma_digit_run_end(s@, i as int);
    }
    if i < s.unicode_len() && is_digit_char(s.get_char(i)) {
        scan_digits(s, i + 1)
    } else {
        i
    }
}

/// Strict lexicographic order on the tails of two character sequences from
/// position `i` on: the first differing character decides by scalar value,
/// and a proper prefix sorts before its extensions.
pub open spec fn chars_lt_at(a: Seq<char>, b: Seq<char>, i: int) -> bool
    recommends
        0 <= i,
    decreases b.len() - i,
{
    if i >= b.len() {
        false
    } else if i >= a.len() {
        true
    } else if a[i] == b[i] {
        chars_lt_at(a, b, i + 1)
    } else {
        a[i] < b[i]
    }
}

/// Strict lexicographic order on character sequences.
pub open spec fn chars_lt(a: Seq<char>, b: Seq<char>) -> bool {
    chars_lt_at(a, b, 0)
}

pub proof fn lemma_chars_lt_at_irreflexive(a: Seq<char>, i: int)
    requires
        0 <= i,
    ensures
        !chars_lt_at(a, a, i),
    decreases a.len() - i,
{
    if i < a.len() {
        lemma_chars_lt_at_irreflexive(a, i + 1);
    }
}

pub proof fn lemma_chars_lt_at_connected(a: Seq<char>, b: Seq<char>, i: int)
    requires
        0 <= i,
        !chars_lt_at(a, b, i),
        !chars_lt_at(b, a, i),
    ensures
        i <= a.len() && i <= b.len() ==> a.len() == b.len(),
        forall|j: int| i <= j < a.len() && j < b.len() ==> a[j] == b[j],
    decreases b.len() - i,
{
    if i < b.len() && i < a.len() {
        if a[i] == b[i] {
            lemma_chars_lt_at_connected(a, b, i + 1);
        }
    }
}

pub proof fn lemma_chars_lt_at_transitive(a: Seq<char>, b: Seq<char>, c: Seq<char>, i: int)
    requires
        0 <= i,
        chars_lt_at(a, b, i),
        chars_lt_at(b, c, i),
    ensures
        chars_lt_at(a, c, i),
    decreases c.len() - i,
{
    if i < a.len() && i < b.len() && i < c.len() && a[i] == b[i] && b[i] == c[i] {
        lemma_chars_lt_at_transitive(a, b, c, i + 1);
    }
}

/// Equal character sequences compare with `chars_lt` as equal.
pub proof fn lemma_chars_lt_equal(a: Seq<char>, b: Seq<char>, i: int)
    requires
        0 <= i,
        !chars_lt_at(a, b, i),
        !chars_lt_at(b, a, i),
        i <= a.len(),
        i <= b.len(),
    ensures
        a.skip(i) =~= b.skip(i),
{
    lemma_chars_lt_at_connected(a, b, i);
}

/// The base name derived from a requested task name at creation time: any
/// leading run of digits is removed, then one leading separator if present
/// (a user escapes a base name that legitimately starts with a digit by
/// prefixing the separator).
pub open spec fn creation_base(s: Seq<char>) -> Seq<char> {
    let e = digit_run_end(s, 0);
    if e < s.len() && s[e] == SEPARATOR {
        s.subrange(e + 1, s.len() as int)
    } else {
        s.subrange(e, s.len() as int)
    }
}

/// Strips a leading digit run, then one leading separator, from a requested
/// task name.
pub fn derive_base_name(s: &str) -> (r: String)
    ensures
        r@ == creation_base(s@),
{
    let e = scan_digits(s, 0);
    let n = s.unicode_len();
    if e < n && s.get_char(e) == '_' {
        s.substring_char(e + 1, n).to_owned()
    } else {
        s.substring_char(e, n).to_owned()
    }
}

/// Renders `n` as a zero-padded three-digit ordinal string.
pub fn format_ordinal(n: u32) -> (r: String)
    requires
        n <= 999,
    ensures
        r@ == format3(n as int),
        r@.len() == 3,
{
    let mut r = String::new();
    r.append(digit_str(n / 100));
    r.append(digit_str((n / 10) % 10));
    r.append(digit_str(n % 10));
    proof {
        assert(r@ =~= format3(n as int));
    }
    r
}

} // verus!
