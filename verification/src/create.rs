//! The task creation workflow: layout validation and new-name computation.
//!
//! Creation derives the base name by stripping any leading digit run plus one
//! separator from the requested name, scans the destination's siblings for
//! names with a three-digit ordinal prefix, and prepends the next free
//! ordinal.  The next ordinal is one past the greatest existing one; the
//! greatest is equally the ordinal of the lexicographically greatest prefixed
//! sibling, since zero-padded equal-length ordinals sort the same way
//! lexicographically and numerically (proved below).

use vstd::prelude::*;

use crate::ordinal::chars_lt;
use crate::ordinal::chars_lt_at;
use crate::ordinal::creation_base;
use crate::ordinal::derive_base_name;
use crate::ordinal::digit_value;
use crate::ordinal::format3;
use crate::ordinal::format_ordinal;
use crate::ordinal::has_ordinal_prefix;
use crate::ordinal::is_digit;
use crate::ordinal::ordinal_value;
use crate::ordinal::parse_ordinal;
use crate::ordinal::starts_with_ordinal;
use crate::ordinal::SEPARATOR;

verus! {

/// Errors of the creation workflow.
#[derive(Debug)]
pub enum CreateError {
    /// The requested layout is not a subdirectory of the layout repository;
    /// carries the requested name and the available layout names.
    LayoutNotFound { requested: String, available: Vec<String> },
    /// The next ordinal would pass `999` and cannot be rendered as a
    /// three-digit prefix.  The source behaviour past `999` was undefined;
    /// this library makes the overflow an explicit error.
    OrdinalOverflow,
}

/// The greatest ordinal among the first `n` prefixed names, `-1` if none.
pub open spec fn max_ordinal(names: Seq<String>, n: int) -> int
    recommends
        n <= names.len(),
    decreases n,
{
    if n <= 0 {
        -1
    } else {
        let rest = max_ordinal(names, n - 1);
        if has_ordinal_prefix(names[n - 1]@) && ordinal_value(names[n - 1]@) > rest {
            ordinal_value(names[n - 1]@)
        } else {
            rest
        }
    }
}

/// The next free ordinal: `0` with no prefixed sibling, else one past the
/// greatest ordinal in use.
pub open spec fn next_ordinal_spec(names: Seq<String>) -> int {
    max_ordinal(names, names.len() as int) + 1
}

pub proof fn lemma_max_ordinal_props(names: Seq<String>, n: int)
    requires
        0 <= n <= names.len(),
    ensures
        -1 <= max_ordinal(names, n) <= 999,
        forall|j: int|
            0 <= j < n && has_ordinal_prefix(names[j]@) ==> ordinal_value(#[trigger] names[j]@)
                <= max_ordinal(names, n),
        max_ordinal(names, n) >= 0 ==> exists|j: int|
            0 <= j < n && has_ordinal_prefix(#[trigger] names[j]@) && ordinal_value(names[j]@)
                == max_ordinal(names, n),
    decreases n,
{
    if n > 0 {
        lemma_max_ordinal_props(names, n - 1);
    }
}

/// Computes the next free ordinal among the given sibling names; names
/// without a three-digit ordinal prefix are ignored.
pub fn next_ordinal(siblings: &Vec<String>) -> (r: u32)
    ensures
        r as int == next_ordinal_spec(siblings@),
        r <= 1000,
{
    let mut best: u32 = 0;
    let mut found = false;
    let mut i: usize = 0;
    while i < siblings.len()
        invariant
            i <= siblings@.len(),
            found ==> best as int == max_ordinal(siblings@, i as int) && best <= 999,
            !found ==> max_ordinal(siblings@, i as int) == -1 && best == 0,
        decreases siblings@.len() - i,
    {
        let s = &siblings[i];
        if starts_with_ordinal(s.as_str()) {
            let v = parse_ordinal(s.as_str());
            if !found || v > best {
                best = v;
            }
            found = true;
        }
        i += 1;
    }
    proof {
        lemma_max_ordinal_props(siblings@, siblings@.len() as int);
    }
    if found {
        best + 1
    } else {
        0
    }
}

/// Between two digits, character order and numeric order agree.
proof fn lemma_digit_lt(c1: char, c2: char)
    requires
        is_digit(c1),
        is_digit(c2),
        digit_value(c1) < digit_value(c2),
    ensures
        c1 < c2,
{
}

/// Between two prefixed names, the smaller ordinal sorts lexicographically
/// first: zero-padding makes the two orders agree on the prefix.
pub proof fn lemma_ordinal_follows_lex(a: Seq<char>, b: Seq<char>)
    requires
        has_ordinal_prefix(a),
        has_ordinal_prefix(b),
        ordinal_value(a) < ordinal_value(b),
    ensures
        chars_lt(a, b),
{
    if a[0] != b[0] {
        if digit_value(a[0]) >= digit_value(b[0]) {
            assert(digit_value(a[1]) * 10 + digit_value(a[2]) <= 99);
            assert(false);
        }
        lemma_digit_lt(a[0], b[0]);
    } else if a[1] != b[1] {
        if digit_value(a[1]) >= digit_value(b[1]) {
            assert(false);
        }
        lemma_digit_lt(a[1], b[1]);
        assert(chars_lt_at(a, b, 1));
    } else {
        if digit_value(a[2]) >= digit_value(b[2]) {
            assert(false);
        }
        lemma_digit_lt(a[2], b[2]);
        assert(chars_lt_at(a, b, 2));
        assert(chars_lt_at(a, b, 1));
    }
}

/// The ordinal of a lexicographically greatest prefixed sibling is the
/// greatest ordinal: taking the last name of the lexicographic sort and
/// taking the numeric maximum pick the same next ordinal.
pub proof fn lemma_lex_greatest_has_max_ordinal(names: Seq<String>, k: int)
    requires
        0 <= k < names.len(),
        forall|j: int| 0 <= j < names.len() ==> has_ordinal_prefix(#[trigger] names[j]@),
        forall|j: int| 0 <= j < names.len() ==> !chars_lt(names[k]@, #[trigger] names[j]@),
    ensures
        ordinal_value(names[k]@) == max_ordinal(names, names.len() as int),
        next_ordinal_spec(names) == ordinal_value(names[k]@) + 1,
{
    lemma_max_ordinal_props(names, names.len() as int);
    assert forall|j: int|
        0 <= j < names.len() implies ordinal_value(#[trigger] names[j]@) <= ordinal_value(
        names[k]@,
    ) by {
        if ordinal_value(names[j]@) > ordinal_value(names[k]@) {
            lemma_ordinal_follows_lex(names[k]@, names[j]@);
        }
    };
}

/// Whether some name in `names` is exactly `l`.
pub open spec fn contains_name(names: Seq<String>, l: Seq<char>) -> bool {
    exists|i: int| 0 <= i < names.len() && #[trigger] names[i]@ == l
}

/// Whether `name` occurs in `names`.
pub fn name_listed(names: &Vec<String>, name: &String) -> (b: bool)
    ensures
        b == contains_name(names@, name@),
{
    let mut i: usize = 0;
    let mut found = false;
    while i < names.len()
        invariant
            i <= names@.len(),
            found == exists|k: int| 0 <= k < i && #[trigger] names@[k]@ == name@,
        decreases names@.len() - i,
    {
        if names[i].eq(name) {
            found = true;
        }
        i += 1;
    }
    found
}

/// The full name given to a newly created task directory when numbering is
/// on: the ordinal, the separator, the stripped base name.
pub open spec fn numbered_name(n: int, base: Seq<char>) -> Seq<char> {
    format3(n) + seq![SEPARATOR] + base
}

/// Computes the directory name for a new task.  The requested layout must be
/// among the repository's layout names, else the error lists them.  With
/// numbering on, the requested name is stripped to its base and the next
/// free ordinal among the siblings is prepended; with numbering off the
/// requested name is used verbatim, whatever the siblings hold.
pub fn plan_task_creation(
    layout_names: &Vec<String>,
    layout: &String,
    requested_name: &String,
    numbering: bool,
    siblings: &Vec<String>,
) -> (r: Result<String, CreateError>)
    ensures
        match r {
            Ok(name) => {
                &&& contains_name(layout_names@, layout@)
                &&& numbering ==> next_ordinal_spec(siblings@) <= 999 && name@ == numbered_name(
                    next_ordinal_spec(siblings@),
                    creation_base(requested_name@),
                )
                &&& !numbering ==> name@ == requested_name@
            },
            Err(CreateError::LayoutNotFound { requested, available }) => {
                &&& !contains_name(layout_names@, layout@)
                &&& requested@ == layout@
                &&& available@ =~= layout_names@
            },
            Err(CreateError::OrdinalOverflow) => {
                &&& contains_name(layout_names@, layout@)
                &&& numbering
                &&& next_ordinal_spec(siblings@) > 999
            },
        },
{
    if !name_listed(layout_names, layout) {
        let available = clone_names(layout_names);
        return Err(CreateError::LayoutNotFound { requested: layout.clone(), available });
    }
    if numbering {
        let base = derive_base_name(requested_name.as_str());
        let next = next_ordinal(siblings);
        if next > 999 {
            return Err(CreateError::OrdinalOverflow);
        }
        let mut name = format_ordinal(next);
        name.append("_");
        proof {
            reveal_strlit("_");
            assert("_"@ =~= seq![SEPARATOR]);
        }
        Ok(name.concat(base.as_str()))
    } else {
        Ok(requested_name.clone())
    }
}

/// A value copy of a list of names.
fn clone_names(names: &Vec<String>) -> (r: Vec<String>)
    ensures
        r@ =~= names@,
{
    let mut r: Vec<String> = Vec::new();
    let mut i: usize = 0;
    while i < names.len()
        invariant
            i <= names@.len(),
            r@ =~= names@.subrange(0, i as int),
        decreases names@.len() - i,
    {
        r.push(names[i].clone());
        i += 1;
    }
    r
}

} // verus!
