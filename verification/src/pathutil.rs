//! Path strings: conversion helpers, separator normalization, and the
//! prefix relation that ties a directory to the files below it.
use vstd::prelude::*;

verus! {

use vstd::string::StrSliceExecFns;

/// A backslash, mapped to `/` by normalization.
pub open spec fn backslash() -> char {
    '\\'
}

/// Separator normalization at the character level: every `\` becomes `/`.
pub open spec fn normalize_chars(s: Seq<char>) -> Seq<char> {
    s.map_values(|c: char| if c == backslash() { '/' } else { c })
}

/// True when `s` holds no backslash.
pub open spec fn forward_slash_only(s: Seq<char>) -> bool {
    forall|i: int| 0 <= i < s.len() ==> s[i] != backslash()
}

/// Normalized strings hold no backslash.
pub proof fn lemma_normalize_forward_slash_only(s: Seq<char>)
    ensures
        forward_slash_only(normalize_chars(s)),
{
}

/// The relative path of an entry named `name` inside directory `dir`
/// (`dir` is the empty string for the root).
pub open spec fn join_rel(dir: Seq<char>, name: Seq<char>) -> Seq<char> {
    if dir.len() == 0 {
        name
    } else {
        dir + seq!['/'] + name
    }
}

/// `p` names a directory above the file path `s`: `s` starts with `p + "/"`.
/// With `p` empty this says `s` is below the root, which holds of every
/// non-empty relative path that the walker emits.
pub open spec fn dir_contains(p: Seq<char>, s: Seq<char>) -> bool {
    if p.len() == 0 {
        s.len() > 0
    } else {
        s.len() > p.len() && s.subrange(0, p.len() as int) == p && s[p.len() as int] == '/'
    }
}

/// Plain string-prefix relation, used by cache invalidation.
pub open spec fn is_prefix(p: Seq<char>, s: Seq<char>) -> bool {
    p.len() <= s.len() && s.subrange(0, p.len() as int) == p
}

/// True when every character of `s` is ASCII whitespace; an empty string is
/// blank. Blank paths are rejected by the scan entry point.
pub open spec fn is_blank(s: Seq<char>) -> bool {
    forall|i: int| 0 <= i < s.len() ==> is_space_char(s[i])
}

/// The ASCII whitespace characters.
pub open spec fn is_space_char(c: char) -> bool {
    c == ' ' || c == '\t' || c == '\n' || c == '\r'
}

/// The characters of `s`, as a vector.
pub fn chars_of(s: &str) -> (r: Vec<char>)
    ensures
        r@ == s@,
{
    let n = s.unicode_len();
    let mut r: Vec<char> = Vec::new();
    let mut i: usize = 0;
    while i < n
        invariant
            n == s@.len(),
            i <= n,
            r@ == s@.subrange(0, i as int),
        decreases n - i,
    {
        r.push(s.get_char(i));
        i = i + 1;
    }
    proof {
        assert(s@.subrange(0, n as int) =~= s@);
    }
    r
}

/// Relies on `core::iter::Iterator::collect` for `String`: collecting
/// characters yields the string of exactly those characters.
#[verifier::external_body]
pub(crate) fn string_of(v: &Vec<char>) -> (r: String)
    ensures
        r@ == v@,
{
    v.iter().collect()
}

/// Replaces every backslash with a forward slash.
pub fn normalize_path_separator(s: &str) -> (r: String)
    ensures
        r@ == normalize_chars(s@),
{
    let cs = chars_of(s);
    let mut out: Vec<char> = Vec::new();
    let mut i: usize = 0;
    while i < cs.len()
        invariant
            cs@ == s@,
            i <= cs.len(),
            out@ == normalize_chars(s@.subrange(0, i as int)),
        decreases cs.len() - i,
    {
        let c = cs[i];
        if c == '\\' {
            out.push('/');
        } else {
            out.push(c);
        }
        proof {
            assert(s@.subrange(0, i + 1) =~= s@.subrange(0, i as int).push(s@[i as int]));
            assert(out@ =~= normalize_chars(s@.subrange(0, i + 1)));
        }
        i = i + 1;
    }
    proof {
        assert(s@.subrange(0, cs@.len() as int) =~= s@);
    }
    string_of(&out)
}

/// True when every character of `s` is ASCII whitespace (an empty string
/// counts as blank).
pub fn check_blank(s: &str) -> (r: bool)
    ensures
        r == is_blank(s@),
{
    let cs = chars_of(s);
    let mut i: usize = 0;
    while i < cs.len()
        invariant
            cs@ == s@,
            i <= cs.len(),
            forall|j: int| 0 <= j < i ==> is_space_char(s@[j]),
        decreases cs.len() - i,
    {
        let c = cs[i];
        if !(c == ' ' || c == '\t' || c == '\n' || c == '\r') {
            return false;
        }
        i = i + 1;
    }
    true
}

/// True when `p` is a string prefix of `s`.
pub fn check_prefix(p: &str, s: &str) -> (r: bool)
    ensures
        r == is_prefix(p@, s@),
{
    let pc = chars_of(p);
    let sc = chars_of(s);
    if pc.len() > sc.len() {
        proof {
            assert(!is_prefix(p@, s@));
        }
        return false;
    }
    let mut i: usize = 0;
    while i < pc.len()
        invariant
            pc@ == p@,
            sc@ == s@,
            i <= pc.len() <= sc.len(),
            forall|j: int| 0 <= j < i ==> p@[j] == s@[j],
        decreases pc.len() - i,
    {
        if pc[i] != sc[i] {
            proof {
                assert(s@.subrange(0, p@.len() as int)[i as int] != p@[i as int]);
            }
            return false;
        }
        i = i + 1;
    }
    proof {
        assert(s@.subrange(0, p@.len() as int) =~= p@);
    }
    true
}

/// True when `p` names a directory above the file path `s`
/// (see [`dir_contains`]).
pub fn check_dir_contains(p: &str, s: &str) -> (r: bool)
    ensures
        r == dir_contains(p@, s@),
{
    let pc = chars_of(p);
    let sc = chars_of(s);
    if pc.len() == 0 {
        return sc.len() > 0;
    }
    if sc.len() <= pc.len() {
        proof {
            assert(!dir_contains(p@, s@));
        }
        return false;
    }
    let mut i: usize = 0;
    while i < pc.len()
        invariant
            pc@ == p@,
            sc@ == s@,
            pc@.len() > 0,
            i <= pc.len() < sc.len(),
            forall|j: int| 0 <= j < i ==> p@[j] == s@[j],
        decreases pc.len() - i,
    {
        if pc[i] != sc[i] {
            proof {
                assert(s@.subrange(0, p@.len() as int)[i as int] != p@[i as int]);
            }
            return false;
        }
        i = i + 1;
    }
    proof {
        assert(s@.subrange(0, p@.len() as int) =~= p@);
    }
    sc[pc.len()] == '/'
}

} // verus!
