//! Position scanning over the input, at the specification level.
//!
//! Every sub-scanner of the reader advances through the input until it meets
//! a delimiter from some fixed set.  The spec function [`find`] gives the
//! position where such a scan stops, and [`skip_ws`] is the scan whose
//! delimiters are the non-white-space characters.

use vstd::prelude::*;
use crate::chars::is_ws;
use crate::chars::ws_char;

verus! {

/// The kinds of scan the reader performs, named by what stops them.
#[derive(Clone, Copy, PartialEq, Eq, Structural, Debug)]
pub enum Stop {
    /// Stop at the first non-white-space character (white-space skipping).
    NonWs,
    /// Stop at `<`: the end of a text node.
    Lt,
    /// Stop at white space, `/` or `>`: the end of an element name.
    NameDelim,
    /// Stop at white space or `=`: the end of an attribute name.
    AttrDelim,
    /// Stop at white space or `>`: the end of an end-tag name.
    EndDelim,
    /// Stop at `"`: the end of an attribute value.
    Quote,
}

/// Whether character `c` stops a scan of kind `k`.
pub open spec fn stops(k: Stop, c: char) -> bool {
    match k {
        Stop::NonWs => !is_ws(c),
        Stop::Lt => c == '<',
        Stop::NameDelim => is_ws(c) || c == '/' || c == '>',
        Stop::AttrDelim => is_ws(c) || c == '=',
        Stop::EndDelim => is_ws(c) || c == '>',
        Stop::Quote => c == '"',
    }
}

/// The first position at or after `i` whose character stops a scan of kind
/// `k`, or the length of `s` when no such position exists.
pub open spec fn find(s: Seq<char>, i: int, k: Stop) -> int
    decreases s.len() - i,
{
    if i < 0 || i >= s.len() {
        s.len() as int
    } else if stops(k, s[i]) {
        i
    } else {
        find(s, i + 1, k)
    }
}

/// Executable delimiter test, equivalent to `stops`.
pub fn stop_char(k: Stop, c: char) -> (b: bool)
    ensures
        b == stops(k, c),
{
    match k {
        Stop::NonWs => !ws_char(c),
        Stop::Lt => c == '<',
        Stop::NameDelim => ws_char(c) || c == '/' || c == '>',
        Stop::AttrDelim => ws_char(c) || c == '=',
        Stop::EndDelim => ws_char(c) || c == '>',
        Stop::Quote => c == '"',
    }
}

/// The first position at or after `i` holding a non-white-space character.
pub open spec fn skip_ws(s: Seq<char>, i: int) -> int {
    find(s, i, Stop::NonWs)
}

/// What [`find`] returns: the first stopping position in `[i, s.len()]`.
pub proof fn lemma_find(s: Seq<char>, i: int, k: Stop)
    requires
        0 <= i <= s.len(),
    ensures
        i <= find(s, i, k) <= s.len(),
        forall|j: int| i <= j < find(s, i, k) ==> !#[trigger] stops(k, s[j]),
        find(s, i, k) < s.len() ==> stops(k, s[find(s, i, k)]),
    decreases s.len() - i,
{
    if i < s.len() && !stops(k, s[i]) {
        lemma_find(s, i + 1, k);
    }
}

/// Skipping white space cannot pass a `<`, so a scan for `<` is unchanged
/// by first skipping white space.
pub proof fn lemma_find_lt_skip_ws(s: Seq<char>, i: int)
    requires
        0 <= i <= s.len(),
    ensures
        find(s, skip_ws(s, i), Stop::Lt) == find(s, i, Stop::Lt),
    decreases s.len() - i,
{
    if i < s.len() && is_ws(s[i]) {
        lemma_find_lt_skip_ws(s, i + 1);
    }
}

/// The first position at or after `i` where the three characters `-->`
/// begin, or the length of `s` when they do not occur from `i` on.
pub open spec fn find_comment_close(s: Seq<char>, i: int) -> int
    decreases s.len() - i,
{
    if i < 0 || i + 3 > s.len() {
        s.len() as int
    } else if s[i] == '-' && s[i + 1] == '-' && s[i + 2] == '>' {
        i
    } else {
        find_comment_close(s, i + 1)
    }
}

/// What [`find_comment_close`] returns: the first start of `-->` after `i`.
pub proof fn lemma_find_comment_close(s: Seq<char>, i: int)
    requires
        0 <= i <= s.len(),
    ensures
        i <= find_comment_close(s, i) <= s.len(),
        find_comment_close(s, i) < s.len() ==> {
            let q = find_comment_close(s, i);
            &&& q + 3 <= s.len()
            &&& s[q] == '-' && s[q + 1] == '-' && s[q + 2] == '>'
        },
        forall|j: int|
            i <= j && j + 3 <= s.len() && j < find_comment_close(s, i)
                ==> !(s[j] == '-' && s[j + 1] == '-' && #[trigger] s[j + 2] == '>'),
    decreases s.len() - i,
{
    if i + 3 <= s.len() && !(s[i] == '-' && s[i + 1] == '-' && s[i + 2] == '>') {
        lemma_find_comment_close(s, i + 1);
    }
}

} // verus!
