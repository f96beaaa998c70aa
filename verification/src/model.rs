//! The specification of the reader: an abstract state machine over the
//! input's characters.
//!
//! [`spec_step`] says, for every machine state, which lexical event the next
//! read produces and which state the machine is left in.  The executable
//! machine is proved to follow it step for step.
//!
//! The machine has the three parse states of [`TagState`]; the `>` that
//! closes a start tag produces no event of its own, so there `spec_step`
//! recurses for the event that follows it.  Whether a comment is an event or
//! is consumed silently is a configuration choice (the `emit_comments`
//! argument): the `Token` reader reports comments, the `Event` reader skips
//! them.

use vstd::prelude::*;
use crate::scan::{Stop, stops, find, skip_ws, find_comment_close, lemma_find,
    lemma_find_comment_close};

verus! {

/// The parse state: between elements, inside a tag, or terminal.
#[derive(Clone, Copy, PartialEq, Eq, Structural, Debug)]
pub enum TagState {
    /// Between elements: scanning text or about to see `<`.
    OutsideOfTag,
    /// After `<name`: scanning attributes, `/>` or `>`.
    InsideOfTag,
    /// Terminal: every further read yields the same terminal event.
    Done,
}

/// The malformed constructs the reader reports.
#[derive(Clone, Copy, PartialEq, Eq, Structural, Debug)]
pub enum ErrKind {
    /// A `<` followed by a structural delimiter instead of an element name.
    EmptyName,
    /// A `/` inside a tag that is not followed by `>`.
    SelfCloseSlash,
    /// An attribute without its `=`, or without the opening `"` of its
    /// value.
    AttrMalformed,
    /// An end tag without its closing `>`.
    EndTagMissingGt,
    /// End of input while a tag, attribute or comment is incomplete.
    UnexpectedEnd,
}

/// A lexical event at the specification level: names, values and text are
/// sequences of the input's characters.
pub enum Lex {
    /// Start of an element, with its name.
    Start(Seq<char>),
    /// An attribute, with its name and its un-decoded value.
    Attr(Seq<char>, Seq<char>),
    /// A text run: the exact characters between a `>` and the next `<`.
    Text(Seq<char>),
    /// End of an element: the end tag's name, or empty for `/>`.
    End(Seq<char>),
    /// A comment's text, without the `<!--` and `-->` delimiters.
    Comment(Seq<char>),
    /// A malformed construct; terminal for the stream.
    Fail(ErrKind),
    /// Clean end of input; terminal for the stream.
    Eof,
}

impl Lex {
    /// Terminal events end the stream and repeat forever.
    pub open spec fn is_terminal(self) -> bool {
        self is Fail || self is Eof
    }
}

/// The abstract state of the machine: the cursor position (in characters),
/// the parse state, where the pending text run began, and the stored error
/// once one was reported.
pub struct MState {
    pub pos: int,
    pub st: TagState,
    pub text_start: int,
    pub failed: Option<ErrKind>,
}

/// Well-formed states: the cursor is inside the input, the pending text run
/// begins at or before it, and an error is stored only in the terminal state.
pub open spec fn m_wf(s: Seq<char>, m: MState) -> bool {
    &&& 0 <= m.text_start <= m.pos <= s.len()
    &&& (m.failed is Some ==> m.st == TagState::Done)
}

/// The state a fresh reader starts in.
pub open spec fn init_state() -> MState {
    MState { pos: 0, st: TagState::OutsideOfTag, text_start: 0, failed: None }
}

/// The same state at another cursor position.
pub open spec fn at_pos(m: MState, p: int) -> MState {
    MState { pos: p, ..m }
}

/// Report error `k` at position `p`: the event and the terminal state that
/// stores it.
pub open spec fn fail_state(m: MState, k: ErrKind, p: int) -> (Lex, MState) {
    (Lex::Fail(k), MState { pos: p, st: TagState::Done, text_start: m.text_start, failed: Some(k) })
}

/// Scan a text node: everything from the start of the pending text run up to
/// (but excluding) the next `<`, or to the end of input.  Entered from
/// `OutsideOfTag` when the character under the cursor is not `<`.
pub open spec fn scan_text(s: Seq<char>, m: MState) -> (Lex, MState) {
    let j = find(s, m.pos, Stop::Lt);
    (
        Lex::Text(s.subrange(m.text_start, j)),
        MState { pos: j, st: TagState::OutsideOfTag, text_start: j, failed: None },
    )
}

/// Scan an element name.  `m.pos` is just past the `<`; white space is
/// skipped, then the name runs to white space, `/` or `>`, and trailing
/// white space is skipped.  An empty name is malformed; end of input
/// anywhere in the tag is malformed.
pub open spec fn scan_element_name(s: Seq<char>, m: MState) -> (Lex, MState) {
    let n = s.len() as int;
    let b = skip_ws(s, m.pos);
    if b >= n {
        fail_state(m, ErrKind::UnexpectedEnd, n)
    } else {
        let j = find(s, b, Stop::NameDelim);
        if j >= n {
            fail_state(m, ErrKind::UnexpectedEnd, n)
        } else if j == b {
            fail_state(m, ErrKind::EmptyName, b)
        } else {
            let k = skip_ws(s, j);
            if k >= n {
                fail_state(m, ErrKind::UnexpectedEnd, n)
            } else {
                (
                    Lex::Start(s.subrange(b, j)),
                    MState {
                        pos: k,
                        st: TagState::InsideOfTag,
                        text_start: m.text_start,
                        failed: None,
                    },
                )
            }
        }
    }
}

/// Scan an attribute from inside a tag: a bare name up to white space or
/// `=`, then, in order, the required `=` and a `"`-delimited value; white
/// space is allowed around the `=` and is skipped after the closing quote.
/// A missing `=` or a missing opening quote is malformed; end of input
/// before the value closes is malformed.
pub open spec fn scan_attribute(s: Seq<char>, m: MState) -> (Lex, MState) {
    let n = s.len() as int;
    let a0 = skip_ws(s, m.pos);
    if a0 >= n {
        fail_state(m, ErrKind::UnexpectedEnd, n)
    } else {
        let a1 = find(s, a0, Stop::AttrDelim);
        if a1 >= n {
            fail_state(m, ErrKind::UnexpectedEnd, n)
        } else {
            let a2 = skip_ws(s, a1);
            if a2 >= n {
                fail_state(m, ErrKind::UnexpectedEnd, n)
            } else if s[a2] != '=' {
                fail_state(m, ErrKind::AttrMalformed, a2)
            } else {
                let a4 = skip_ws(s, a2 + 1);
                if a4 >= n {
                    fail_state(m, ErrKind::UnexpectedEnd, n)
                } else if s[a4] != '"' {
                    fail_state(m, ErrKind::AttrMalformed, a4)
                } else {
                    let v0 = a4 + 1;
                    let q = find(s, v0, Stop::Quote);
                    if q >= n {
                        fail_state(m, ErrKind::UnexpectedEnd, n)
                    } else {
                        (
                            Lex::Attr(s.subrange(a0, a1), s.subrange(v0, q)),
                            MState {
                                pos: skip_ws(s, q + 1),
                                st: TagState::InsideOfTag,
                                text_start: m.text_start,
                                failed: None,
                            },
                        )
                    }
                }
            }
        }
    }
}

/// Scan an end tag.  `m.pos` is at the `/` after the `<`; the name runs to
/// white space or `>`, and the closing `>` is required.  When nothing but
/// white space follows the `>`, the input is complete and the machine
/// becomes terminal; otherwise the characters right after the `>` begin the
/// next text run.
pub open spec fn scan_end_tag(s: Seq<char>, m: MState) -> (Lex, MState) {
    let n = s.len() as int;
    let e = skip_ws(s, m.pos + 1);
    if e >= n {
        fail_state(m, ErrKind::UnexpectedEnd, n)
    } else {
        let j = find(s, e, Stop::EndDelim);
        if j >= n {
            fail_state(m, ErrKind::UnexpectedEnd, n)
        } else {
            let k = skip_ws(s, j);
            if k >= n {
                fail_state(m, ErrKind::UnexpectedEnd, n)
            } else if s[k] != '>' {
                fail_state(m, ErrKind::EndTagMissingGt, k)
            } else {
                let name = s.subrange(e, j);
                if skip_ws(s, k + 1) >= n {
                    (
                        Lex::End(name),
                        MState { pos: n, st: TagState::Done, text_start: n, failed: None },
                    )
                } else {
                    (
                        Lex::End(name),
                        MState {
                            pos: skip_ws(s, k + 1),
                            st: TagState::OutsideOfTag,
                            text_start: k + 1,
                            failed: None,
                        },
                    )
                }
            }
        }
    }
}

/// Scan a comment.  `m.pos` is at the `!` after the `<`; the `!` and the two
/// `-` are consumed without further checks, the text runs to the first
/// `-->`, and the characters after the `-->` begin the next text run.  End
/// of input before the `-->` is malformed.
pub open spec fn scan_comment(s: Seq<char>, m: MState) -> (Lex, MState) {
    let n = s.len() as int;
    let c0 = m.pos + 3;
    if c0 >= n {
        fail_state(m, ErrKind::UnexpectedEnd, n)
    } else {
        let q = find_comment_close(s, c0);
        if q >= n {
            fail_state(m, ErrKind::UnexpectedEnd, n)
        } else {
            (
                Lex::Comment(s.subrange(c0, q)),
                MState { pos: q + 3, st: TagState::OutsideOfTag, text_start: q + 3, failed: None },
            )
        }
    }
}

/// One read of the machine: the event produced and the state left behind.
///
/// From `OutsideOfTag`, end of input is a clean [`Lex::Eof`]; a character
/// other than `<` begins a text node; after a `<`, the following character
/// (white space aside) chooses between comment, end tag and element name.
/// From `InsideOfTag`, `>` closes the tag and produces no event of its own
/// (the machine continues with the event after it), `/` must begin `/>`
/// (the end event with the empty name), and anything else is an attribute.
/// `Done` repeats the stored error, or [`Lex::Eof`], forever.
pub open spec fn spec_step(s: Seq<char>, m: MState, emit_comments: bool) -> (Lex, MState)
    decreases s.len() - m.pos, 1int,
    via spec_step_decreases
{
    let n = s.len() as int;
    match m.st {
        TagState::Done => {
            (
                match m.failed {
                    Some(k) => Lex::Fail(k),
                    None => Lex::Eof,
                },
                m,
            )
        }
        TagState::OutsideOfTag => {
            let i = skip_ws(s, m.pos);
            if i >= n {
                (Lex::Eof, MState { pos: n, st: TagState::Done, text_start: n, failed: None })
            } else if s[i] != '<' {
                scan_text(s, m)
            } else {
                let b = skip_ws(s, i + 1);
                if b >= n {
                    fail_state(m, ErrKind::UnexpectedEnd, n)
                } else if s[b] == '!' {
                    if emit_comments {
                        scan_comment(s, at_pos(m, b))
                    } else {
                        let (lex, m2) = scan_comment(s, at_pos(m, b));
                        if lex is Fail {
                            (lex, m2)
                        } else {
                            spec_step(s, m2, emit_comments)
                        }
                    }
                } else if s[b] == '/' {
                    scan_end_tag(s, at_pos(m, b))
                } else {
                    scan_element_name(s, at_pos(m, i + 1))
                }
            }
        }
        TagState::InsideOfTag => {
            let i = skip_ws(s, m.pos);
            if i >= n {
                fail_state(m, ErrKind::UnexpectedEnd, n)
            } else if s[i] == '>' {
                spec_step(
                    s,
                    MState { pos: i + 1, st: TagState::OutsideOfTag, text_start: i + 1, failed: None },
                    emit_comments,
                )
            } else if s[i] == '/' {
                let k = skip_ws(s, i + 1);
                if k >= n {
                    fail_state(m, ErrKind::UnexpectedEnd, n)
                } else if s[k] != '>' {
                    fail_state(m, ErrKind::SelfCloseSlash, k)
                } else {
                    (
                        Lex::End(Seq::empty()),
                        MState {
                            pos: k + 1,
                            st: TagState::OutsideOfTag,
                            text_start: k + 1,
                            failed: None,
                        },
                    )
                }
            } else {
                scan_attribute(s, m)
            }
        }
    }
}

/// Each step leaves a well-formed state, never moves the cursor backwards,
/// and moves it strictly forward whenever an event that is not terminal is
/// produced.  A machine that skips comments never produces a comment event.
pub proof fn lemma_step(s: Seq<char>, m: MState, emit_comments: bool)
    requires
        m_wf(s, m),
    ensures
        ({
            let (lex, m2) = spec_step(s, m, emit_comments);
            &&& m_wf(s, m2)
            &&& m.pos <= m2.pos
            &&& (!lex.is_terminal() ==> m.pos < m2.pos)
            &&& (!emit_comments ==> !(lex is Comment))
        }),
    decreases s.len() - m.pos, 1int,
{
    let n = s.len() as int;
    match m.st {
        TagState::Done => {}
        TagState::OutsideOfTag => {
            lemma_find(s, m.pos, Stop::NonWs);
            let i = skip_ws(s, m.pos);
            if i >= n {
            } else if s[i] != '<' {
                lemma_find(s, m.pos, Stop::Lt);
                let j = find(s, m.pos, Stop::Lt);
                assert(j > i) by {
                    if j < i {
                        assert(!stops(Stop::NonWs, s[j]));
                        assert(stops(Stop::Lt, s[j]));
                        assert(false);
                    }
                    if j == i {
                        assert(stops(Stop::Lt, s[j]));
                        assert(false);
                    }
                };
            } else {
                lemma_find(s, i + 1, Stop::NonWs);
                let b = skip_ws(s, i + 1);
                if b >= n {
                } else if s[b] == '!' {
                    let c0 = b + 3;
                    if c0 < n {
                        lemma_find_comment_close(s, c0);
                    }
                    if !emit_comments {
                        let (lex1, m2) = scan_comment(s, at_pos(m, b));
                        if !(lex1 is Fail) {
                            lemma_step(s, m2, emit_comments);
                        }
                    }
                } else if s[b] == '/' {
                    lemma_find(s, b + 1, Stop::NonWs);
                    let e = skip_ws(s, b + 1);
                    if e < n {
                        lemma_find(s, e, Stop::EndDelim);
                        let j = find(s, e, Stop::EndDelim);
                        if j < n {
                            lemma_find(s, j, Stop::NonWs);
                            let k = skip_ws(s, j);
                            if k < n && s[k] == '>' {
                                lemma_find(s, k + 1, Stop::NonWs);
                            }
                        }
                    }
                } else {
                    lemma_find(s, i + 1, Stop::NonWs);
                    let b2 = skip_ws(s, i + 1);
                    if b2 < n {
                        lemma_find(s, b2, Stop::NameDelim);
                        let j = find(s, b2, Stop::NameDelim);
                        if j < n && j != b2 {
                            lemma_find(s, j, Stop::NonWs);
                        }
                    }
                }
            }
        }
        TagState::InsideOfTag => {
            lemma_find(s, m.pos, Stop::NonWs);
            let i = skip_ws(s, m.pos);
            if i >= n {
            } else if s[i] == '>' {
                let m1 = MState {
                    pos: i + 1,
                    st: TagState::OutsideOfTag,
                    text_start: i + 1,
                    failed: None,
                };
                lemma_step(s, m1, emit_comments);
            } else if s[i] == '/' {
                lemma_find(s, i + 1, Stop::NonWs);
            } else {
                lemma_find(s, i, Stop::AttrDelim);
                let a1 = find(s, i, Stop::AttrDelim);
                if a1 < n {
                    lemma_find(s, a1, Stop::NonWs);
                    let a2 = skip_ws(s, a1);
                    if a2 < n && s[a2] == '=' {
                        lemma_find(s, a2 + 1, Stop::NonWs);
                        let a4 = skip_ws(s, a2 + 1);
                        if a4 < n && s[a4] == '"' {
                            lemma_find(s, a4 + 1, Stop::Quote);
                            let q = find(s, a4 + 1, Stop::Quote);
                            if q < n {
                                lemma_find(s, q + 1, Stop::NonWs);
                            }
                        }
                    }
                }
            }
        }
    }
}

#[via_fn]
proof fn spec_step_decreases(s: Seq<char>, m: MState, emit_comments: bool) {
    if 0 <= m.pos && m.pos <= s.len() {
        lemma_find(s, m.pos, Stop::NonWs);
        let i = skip_ws(s, m.pos);
        if i + 1 <= s.len() {
            lemma_find(s, i + 1, Stop::NonWs);
            let b = skip_ws(s, i + 1);
            if 0 <= b + 3 && b + 3 <= s.len() {
                lemma_find_comment_close(s, b + 3);
            }
        }
    }
}

/// Whatever the state, a step that produces an event that is not terminal
/// moves the cursor strictly forward and keeps it inside the input.
pub proof fn lemma_step_progress(s: Seq<char>, m: MState, emit_comments: bool)
    ensures
        ({
            let (lex, m2) = spec_step(s, m, emit_comments);
            !lex.is_terminal() ==> m.pos < m2.pos <= s.len()
        }),
    decreases s.len() - m.pos, 1int,
{
    let n = s.len() as int;
    if 0 <= m.pos && m.pos <= n {
        match m.st {
            TagState::Done => {}
            TagState::OutsideOfTag => {
                lemma_find(s, m.pos, Stop::NonWs);
                let i = skip_ws(s, m.pos);
                if i >= n {
                } else if s[i] != '<' {
                    lemma_find(s, m.pos, Stop::Lt);
                    let j = find(s, m.pos, Stop::Lt);
                    assert(j > i) by {
                        if j < i {
                            assert(!stops(Stop::NonWs, s[j]));
                            assert(stops(Stop::Lt, s[j]));
                            assert(false);
                        }
                        if j == i {
                            assert(stops(Stop::Lt, s[j]));
                            assert(false);
                        }
                    };
                } else {
                    lemma_find(s, i + 1, Stop::NonWs);
                    let b = skip_ws(s, i + 1);
                    if b >= n {
                    } else if s[b] == '!' {
                        if b + 3 < n {
                            lemma_find_comment_close(s, b + 3);
                        }
                        if !emit_comments {
                            let (lex1, m2) = scan_comment(s, at_pos(m, b));
                            if !(lex1 is Fail) {
                                lemma_step_progress(s, m2, emit_comments);
                            }
                        }
                    } else if s[b] == '/' {
                        lemma_find(s, b + 1, Stop::NonWs);
                        let e = skip_ws(s, b + 1);
                        if e < n {
                            lemma_find(s, e, Stop::EndDelim);
                            let j = find(s, e, Stop::EndDelim);
                            if j < n {
                                lemma_find(s, j, Stop::NonWs);
                                let k = skip_ws(s, j);
                                if k < n && s[k] == '>' {
                                    lemma_find(s, k + 1, Stop::NonWs);
                                }
                            }
                        }
                    } else {
                        let b2 = skip_ws(s, i + 1);
                        if b2 < n {
                            lemma_find(s, b2, Stop::NameDelim);
                            let j = find(s, b2, Stop::NameDelim);
                            if j < n && j != b2 {
                                lemma_find(s, j, Stop::NonWs);
                            }
                        }
                    }
                }
            }
            TagState::InsideOfTag => {
                lemma_find(s, m.pos, Stop::NonWs);
                let i = skip_ws(s, m.pos);
                if i >= n {
                } else if s[i] == '>' {
                    let m1 = MState {
                        pos: i + 1,
                        st: TagState::OutsideOfTag,
                        text_start: i + 1,
                        failed: None,
                    };
                    lemma_step_progress(s, m1, emit_comments);
                } else if s[i] == '/' {
                    lemma_find(s, i + 1, Stop::NonWs);
                } else {
                    lemma_find(s, i, Stop::AttrDelim);
                    let a1 = find(s, i, Stop::AttrDelim);
                    if a1 < n {
                        lemma_find(s, a1, Stop::NonWs);
                        let a2 = skip_ws(s, a1);
                        if a2 < n && s[a2] == '=' {
                            lemma_find(s, a2 + 1, Stop::NonWs);
                            let a4 = skip_ws(s, a2 + 1);
                            if a4 < n && s[a4] == '"' {
                                lemma_find(s, a4 + 1, Stop::Quote);
                                let q = find(s, a4 + 1, Stop::Quote);
                                if q < n {
                                    lemma_find(s, q + 1, Stop::NonWs);
                                }
                            }
                        }
                    }
                }
            }
        }
    }
}

/// The whole stream of events the machine produces from state `m` on: every
/// event up to and including the first terminal one, which is the clean end
/// of input or an error and would repeat forever.
pub open spec fn stream(s: Seq<char>, m: MState, emit_comments: bool) -> Seq<Lex>
    decreases s.len() - m.pos + 1,
    via stream_decreases
{
    let (lex, m2) = spec_step(s, m, emit_comments);
    if lex.is_terminal() {
        seq![lex]
    } else {
        seq![lex] + stream(s, m2, emit_comments)
    }
}

#[via_fn]
proof fn stream_decreases(s: Seq<char>, m: MState, emit_comments: bool) {
    lemma_step_progress(s, m, emit_comments);
}

} // verus!
