//! Canonical names: the lower-case, filesystem-safe form of a file name by
//! which the variants of one resource are matched across buckets.

use vstd::prelude::*;
use crate::path::{file_name, path_file_name};
use crate::text::chars_of;

verus! {

/// The characters a canonical name is made of: `a`-`z`, `0`-`9`, `.` and `_`.
pub open spec fn is_canonical_char(c: char) -> bool {
    ('a' <= c && c <= 'z') || ('0' <= c && c <= '9') || c == '.' || c == '_'
}

/// A canonical name holds canonical characters only.
pub open spec fn is_canonical(s: Seq<char>) -> bool {
    forall|i: int| 0 <= i < s.len() ==> is_canonical_char(#[trigger] s[i])
}

/// The lower-case form of an ASCII upper-case letter.
pub open spec fn lower_of(c: char) -> char
    recommends
        'A' <= c && c <= 'Z',
{
    ((c as u8) + 32) as char
}

/// What becomes of one character: a canonical character stays, an upper-case
/// letter is folded to lower case, a space or `-` becomes `_`, and any other
/// character is dropped.
pub open spec fn sanitize_char(c: char) -> Option<char> {
    if is_canonical_char(c) {
        Some(c)
    } else if 'A' <= c && c <= 'Z' {
        Some(lower_of(c))
    } else if c == ' ' || c == '-' {
        Some('_')
    } else {
        None
    }
}

/// The canonical form of a raw name: each character in turn, as
/// `sanitize_char` has it.
pub open spec fn sanitize_chars(s: Seq<char>) -> Seq<char>
    decreases s.len(),
{
    if s.len() == 0 {
        Seq::empty()
    } else {
        match sanitize_char(s.last()) {
            Some(c) => sanitize_chars(s.drop_last()).push(c),
            None => sanitize_chars(s.drop_last()),
        }
    }
}

/// The canonical name of the file at `path`: none where the path has no file
/// name.
pub open spec fn sanitize_path(path: Seq<char>) -> Option<Seq<char>> {
    match path_file_name(path) {
        Some(name) => Some(sanitize_chars(name)),
        None => None,
    }
}

/// A character that is kept is canonical.
pub proof fn lemma_sanitize_char_canonical(c: char)
    ensures
        match sanitize_char(c) {
            Some(d) => is_canonical_char(d),
            None => true,
        },
{
    if 'A' <= c && c <= 'Z' {
        let d = lower_of(c);
        assert('a' <= d && d <= 'z');
    }
}

/// Whatever the raw name, the result holds only `a`-`z`, `0`-`9`, `.` and `_`,
/// and is no longer than the raw name.
pub proof fn lemma_sanitize_canonical(s: Seq<char>)
    ensures
        is_canonical(sanitize_chars(s)),
        sanitize_chars(s).len() <= s.len(),
    decreases s.len(),
{
    if s.len() > 0 {
        lemma_sanitize_canonical(s.drop_last());
        lemma_sanitize_char_canonical(s.last());
    }
}

/// A canonical name is its own canonical form.
pub proof fn lemma_sanitize_fixes_canonical(s: Seq<char>)
    requires
        is_canonical(s),
    ensures
        sanitize_chars(s) == s,
    decreases s.len(),
{
    if s.len() > 0 {
        lemma_sanitize_fixes_canonical(s.drop_last());
        assert(s.drop_last().push(s.last()) =~= s);
    }
}

/// Sanitizing twice gives what sanitizing once gives.
pub proof fn lemma_sanitize_idempotent(s: Seq<char>)
    ensures
        sanitize_chars(sanitize_chars(s)) == sanitize_chars(s),
{
    lemma_sanitize_canonical(s);
    lemma_sanitize_fixes_canonical(sanitize_chars(s));
}

/// The canonical form of one character, if it is kept.
pub fn sanitize_one(c: char) -> (r: Option<char>)
    ensures
        r == sanitize_char(c),
{
    if ('a' <= c && c <= 'z') || ('0' <= c && c <= '9') || c == '.' || c == '_' {
        Some(c)
    } else if 'A' <= c && c <= 'Z' {
        let b: u8 = c as u8;
        Some((b + 32) as char)
    } else if c == ' ' || c == '-' {
        Some('_')
    } else {
        None
    }
}

/// The canonical form of the raw file name `name`.
pub fn sanitize(name: &str) -> (r: String)
    ensures
        r@ == sanitize_chars(name@),
        is_canonical(r@),
        r@.len() <= name@.len(),
{
    let v: Vec<char> = chars_of(name);
    let mut r: String = String::new();
    let mut i: usize = 0;
    while i < v.len()
        invariant
            v@ == name@,
            i <= v@.len(),
            r@ == sanitize_chars(v@.take(i as int)),
        decreases v@.len() - i,
    {
        proof {
            assert(v@.take(i + 1).drop_last() =~= v@.take(i as int));
        }
        match sanitize_one(v[i]) {
            Some(c) => {
                r.push(c);
            },
            None => {},
        }
        i += 1;
    }
    proof {
        assert(v@.take(v@.len() as int) =~= v@);
        lemma_sanitize_canonical(name@);
    }
    r
}

/// The canonical name of the file at `path`, or `None` where the path has no
/// file name.
pub fn sanitize_name(path: &str) -> (r: Option<String>)
    ensures
        match r {
            Some(name) => sanitize_path(path@) == Some(name@) && is_canonical(name@),
            None => sanitize_path(path@) is None,
        },
{
    match file_name(path) {
        Some(name) => Some(sanitize(name.as_str())),
        None => None,
    }
}

} // verus!
