//! Lexical path resolution for display and logging.
//!
//! A possibly-relative path is turned into a normalized absolute form
//! without touching the filesystem: an already-absolute path is cleaned as
//! it stands, a relative one is first joined onto the caller-supplied
//! working directory.  Looking up the working directory is the caller's
//! business; only the lexical work lives here.

use vstd::prelude::*;

verus! {

/// The lexically cleaned form of a path: redundant separators collapsed,
/// `.` elements dropped, `..` elements resolved against their parent where
/// one is present.  Named after the result of `path_clean::clean`, a purely
/// lexical rewrite determined by the path string alone.
pub uninterp spec fn cleaned_of(path: Seq<char>) -> Seq<char>;

/// Relies on path_clean::clean: a purely lexical cleanup whose result is a
/// function of the path string alone, and is never empty (an empty or
/// fully-eliminated path cleans to `.`).
#[verifier::external_body]
fn clean_path(path: &str) -> (r: String)
    ensures
        r@ == cleaned_of(path@),
        r@.len() > 0,
{
    path_clean::clean(path).to_string_lossy().into_owned()
}

/// An ASCII letter.
pub open spec fn is_alpha(c: char) -> bool {
    ('A' <= c && c <= 'Z') || ('a' <= c && c <= 'z')
}

/// A lexically absolute path: rooted at a separator, or at a drive letter
/// followed by a colon and a separator.
pub open spec fn spec_is_absolute(s: Seq<char>) -> bool {
    ||| (s.len() >= 1 && (s[0] == '/' || s[0] == '\\'))
    ||| (s.len() >= 3 && is_alpha(s[0]) && s[1] == ':' && (s[2] == '/' || s[2] == '\\'))
}

/// Whether `s` is a lexically absolute path.
pub fn is_absolute_path(s: &str) -> (b: bool)
    ensures
        b == spec_is_absolute(s@),
{
    let n = s.unicode_len();
    if n >= 1 {
        let c0 = s.get_char(0);
        if c0 == '/' || c0 == '\\' {
            return true;
        }
        if n >= 3 {
            let c1 = s.get_char(1);
            let c2 = s.get_char(2);
            return (('A' <= c0 && c0 <= 'Z') || ('a' <= c0 && c0 <= 'z')) && c1 == ':' && (c2
                == '/' || c2 == '\\');
        }
    }
    false
}

/// A relative path joined onto a working directory.
pub open spec fn joined(cwd: Seq<char>, path: Seq<char>) -> Seq<char> {
    cwd + seq!['/'] + path
}

/// Resolves a possibly-relative path to a normalized form: an absolute path
/// is cleaned as given, a relative one is joined onto `cwd` first.
pub fn resolve_absolute(path: &String, cwd: &String) -> (r: String)
    ensures
        spec_is_absolute(path@) ==> r@ == cleaned_of(path@),
        !spec_is_absolute(path@) ==> r@ == cleaned_of(joined(cwd@, path@)),
        r@.len() > 0,
{
    if is_absolute_path(path.as_str()) {
        clean_path(path.as_str())
    } else {
        let mut full = cwd.clone();
        full.append("/");
        full.append(path.as_str());
        proof {
            reveal_strlit("/");
            assert(full@ =~= joined(cwd@, path@));
        }
        clean_path(full.as_str())
    }
}

} // verus!
