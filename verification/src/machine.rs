//! The executable core of the reader: a cursor over the input's characters
//! and the state machine that produces one lexical event per call.
//!
//! Every method is proved against the abstract machine of [`crate::model`]:
//! [`Machine::read_token_internal`] produces exactly the event that
//! [`spec_step`] prescribes for the current state, and leaves the machine in
//! exactly the state `spec_step` prescribes.

use vstd::prelude::*;
use vstd::string::StrSliceExecFns;
use crate::model::{TagState, ErrKind, Lex, MState, m_wf, fail_state, scan_text,
    scan_element_name, scan_attribute, scan_end_tag, scan_comment, spec_step, at_pos};
use crate::scan::{Stop, stops, find, skip_ws, find_comment_close, stop_char, lemma_find,
    lemma_find_comment_close, lemma_find_lt_skip_ws};

verus! {

/// A cursor position: the index of a character in the input, paired with the
/// character itself.  Indices count characters, so that every slice taken
/// between two of them stays on a character boundary.
pub struct PosChar {
    pub pos: usize,
    pub ch: char,
}

impl PosChar {
    /// Store a position and its character, as returned by the cursor.
    pub fn set(&mut self, tup: (usize, char))
        ensures
            final(self).pos == tup.0,
            final(self).ch == tup.1,
    {
        self.pos = tup.0;
        self.ch = tup.1;
    }
}

/// One lexical event of the core machine, with every name, value and text a
/// slice of the original input.
pub enum RawEvent<'a> {
    /// Start of an element, with its name.
    Start(&'a str),
    /// An attribute's name and un-decoded value.
    Attr(&'a str, &'a str),
    /// A text run, verbatim.
    Text(&'a str),
    /// End of an element: the end tag's name, or `""` for `/>`.
    End(&'a str),
    /// A comment's text, without its delimiters.
    Comment(&'a str),
    /// A malformed construct; every later read repeats it.
    Fail(ErrKind),
    /// Clean end of input; every later read repeats it.
    Eof,
}

/// Whether executable event `r` carries exactly the specification event `l`.
pub open spec fn raw_matches<'a>(r: RawEvent<'a>, l: Lex) -> bool {
    match l {
        Lex::Start(x) => match r {
            RawEvent::Start(t) => t@ == x,
            _ => false,
        },
        Lex::Attr(x, y) => match r {
            RawEvent::Attr(t, u) => t@ == x && u@ == y,
            _ => false,
        },
        Lex::Text(x) => match r {
            RawEvent::Text(t) => t@ == x,
            _ => false,
        },
        Lex::End(x) => match r {
            RawEvent::End(t) => t@ == x,
            _ => false,
        },
        Lex::Comment(x) => match r {
            RawEvent::Comment(t) => t@ == x,
            _ => false,
        },
        Lex::Fail(k) => r == RawEvent::Fail::<'a>(k),
        Lex::Eof => r == RawEvent::Eof::<'a>,
    }
}

/// The core state machine: the input, the cursor (a character index), the
/// parse state, where the pending text run begins, the stored error once one
/// was reported, and whether comments are reported as events or consumed
/// silently.
pub struct Machine<'a> {
    input: &'a str,
    n: usize,
    pos: usize,
    state: TagState,
    text_start: usize,
    failed: Option<ErrKind>,
    emit_comments: bool,
}

/// A well-formed machine is in a well-formed abstract state.
pub proof fn wf_implies_m_wf(mach: Machine)
    requires
        mach.wf(),
    ensures
        m_wf(mach.src(), mach.m()),
{
}

/// The fields a read never changes: the input, its length and the comment
/// configuration.
spec fn steady(a: Machine, b: Machine) -> bool {
    &&& a.input == b.input
    &&& a.n == b.n
    &&& a.emit_comments == b.emit_comments
}

impl<'a> Machine<'a> {
    /// The input as a sequence of characters.
    pub closed spec fn src(self) -> Seq<char> {
        self.input@
    }

    /// The abstract state the machine is in.
    pub closed spec fn m(self) -> MState {
        MState {
            pos: self.pos as int,
            st: self.state,
            text_start: self.text_start as int,
            failed: self.failed,
        }
    }

    /// Whether comments are reported as events.
    pub closed spec fn emits(self) -> bool {
        self.emit_comments
    }

    /// The machine's invariant: the cached length is the input's character
    /// count and the abstract state is well formed.
    pub closed spec fn wf(self) -> bool {
        &&& self.n as int == self.input@.len()
        &&& m_wf(self.input@, self.m())
    }

    /// A fresh machine over `input`, at the first character, outside any
    /// tag.  An empty input is allowed: the first read then reports the end
    /// of input.
    pub fn new(input: &'a str, emit_comments: bool) -> (r: Machine<'a>)
        ensures
            r.wf(),
            r.src() == input@,
            r.m() == crate::model::init_state(),
            r.emits() == emit_comments,
    {
        let n = input.unicode_len();
        Machine {
            input,
            n,
            pos: 0,
            state: TagState::OutsideOfTag,
            text_start: 0,
            failed: None,
            emit_comments,
        }
    }

    /// The character under the cursor, with its position.
    fn get_last_char(&self) -> (r: PosChar)
        requires
            self.wf(),
            self.pos < self.n,
        ensures
            r.pos == self.pos,
            r.ch == self.src()[self.pos as int],
    {
        let mut pc = PosChar { pos: 0, ch: ' ' };
        pc.set((self.pos, self.input.get_char(self.pos)));
        pc
    }

    /// Advance the cursor by one character.
    fn move_next_char(&mut self)
        requires
            old(self).wf(),
            old(self).pos < old(self).n,
        ensures
            final(self).wf(),
            steady(*old(self), *final(self)),
            final(self).pos == old(self).pos + 1,
            final(self).state == old(self).state,
            final(self).text_start == old(self).text_start,
            final(self).failed == old(self).failed,
    {
        self.pos = self.pos + 1;
    }

    /// Advance the cursor to the first position whose character stops a scan
    /// of kind `k`, or to the end of input.
    fn scan_from(&self, start: usize, k: Stop) -> (r: usize)
        requires
            self.wf(),
            start <= self.n,
        ensures
            r as int == find(self.src(), start as int, k),
            start <= r <= self.n,
    {
        let mut i = start;
        loop
            invariant
                self.wf(),
                start <= i <= self.n,
                find(self.src(), start as int, k) == find(self.src(), i as int, k),
            decreases self.n - i,
        {
            if i == self.n {
                return i;
            }
            let c = self.input.get_char(i);
            if stop_char(k, c) {
                return i;
            }
            i = i + 1;
        }
    }

    /// The first position at or after `start` where `-->` begins, or the end
    /// of input.
    fn scan_comment_close_from(&self, start: usize) -> (r: usize)
        requires
            self.wf(),
            start <= self.n,
        ensures
            r as int == find_comment_close(self.src(), start as int),
            start <= r <= self.n,
    {
        let mut i = start;
        loop
            invariant
                self.wf(),
                start <= i <= self.n,
                find_comment_close(self.src(), start as int)
                    == find_comment_close(self.src(), i as int),
            decreases self.n - i,
        {
            if self.n - i < 3 {
                return self.n;
            }
            let c0 = self.input.get_char(i);
            let c1 = self.input.get_char(i + 1);
            let c2 = self.input.get_char(i + 2);
            if c0 == '-' && c1 == '-' && c2 == '>' {
                return i;
            }
            i = i + 1;
        }
    }

    /// Move the cursor past white space, to the first significant character
    /// or to the end of input.
    fn move_over_whitespaces(&mut self)
        requires
            old(self).wf(),
        ensures
            final(self).wf(),
            steady(*old(self), *final(self)),
            final(self).pos as int == skip_ws(old(self).src(), old(self).pos as int),
            old(self).pos <= final(self).pos,
            final(self).state == old(self).state,
            final(self).text_start == old(self).text_start,
            final(self).failed == old(self).failed,
    {
        let p = self.scan_from(self.pos, Stop::NonWs);
        self.pos = p;
    }

    /// Report error `k` at the current position: store it and make the state
    /// terminal, so that every later read repeats the same event.
    fn fail_now(&mut self, k: ErrKind) -> (r: RawEvent<'a>)
        requires
            old(self).wf(),
        ensures
            final(self).wf(),
            steady(*old(self), *final(self)),
            final(self).pos == old(self).pos,
            final(self).text_start == old(self).text_start,
            final(self).state == TagState::Done,
            final(self).failed == Some(k),
            r == RawEvent::Fail::<'a>(k),
            final(self).m() == fail_state(old(self).m(), k, old(self).pos as int).1,
    {
        self.state = TagState::Done;
        self.failed = Some(k);
        RawEvent::Fail(k)
    }

    /// Read a text node: the exact characters from the start of the pending
    /// text run up to the next `<`, or to the end of input.
    fn read_text_node(&mut self) -> (r: RawEvent<'a>)
        requires
            old(self).wf(),
            old(self).failed is None,
        ensures
            final(self).wf(),
            steady(*old(self), *final(self)),
            ({
                let (lex, m2) = scan_text(old(self).src(), old(self).m());
                raw_matches(r, lex) && final(self).m() == m2
            }),
    {
        let j = self.scan_from(self.pos, Stop::Lt);
        let t = self.input.substring_char(self.text_start, j);
        self.pos = j;
        self.text_start = j;
        self.state = TagState::OutsideOfTag;
        RawEvent::Text(t)
    }

    /// Read an element name: skip white space, take the name up to white
    /// space, `/` or `>`, skip white space, and enter the tag.
    fn read_element_name(&mut self) -> (r: RawEvent<'a>)
        requires
            old(self).wf(),
            old(self).failed is None,
        ensures
            final(self).wf(),
            steady(*old(self), *final(self)),
            ({
                let (lex, m2) = scan_element_name(old(self).src(), old(self).m());
                raw_matches(r, lex) && final(self).m() == m2
            }),
    {
        self.move_over_whitespaces();
        if self.pos == self.n {
            return self.fail_now(ErrKind::UnexpectedEnd);
        }
        let start = self.pos;
        let j = self.scan_from(start, Stop::NameDelim);
        if j == self.n {
            self.pos = j;
            return self.fail_now(ErrKind::UnexpectedEnd);
        }
        if j == start {
            return self.fail_now(ErrKind::EmptyName);
        }
        let name = self.input.substring_char(start, j);
        self.pos = j;
        self.move_over_whitespaces();
        if self.pos == self.n {
            return self.fail_now(ErrKind::UnexpectedEnd);
        }
        self.state = TagState::InsideOfTag;
        RawEvent::Start(name)
    }

    /// Read an attribute: a bare name up to white space or `=`, the
    /// required `=`, the `"`-delimited value, and trailing white space.
    fn read_attribute(&mut self) -> (r: RawEvent<'a>)
        requires
            old(self).wf(),
            old(self).failed is None,
            old(self).state == TagState::InsideOfTag,
        ensures
            final(self).wf(),
            steady(*old(self), *final(self)),
            ({
                let (lex, m2) = scan_attribute(old(self).src(), old(self).m());
                raw_matches(r, lex) && final(self).m() == m2
            }),
    {
        self.move_over_whitespaces();
        if self.pos == self.n {
            return self.fail_now(ErrKind::UnexpectedEnd);
        }
        let a0 = self.pos;
        let a1 = self.scan_from(a0, Stop::AttrDelim);
        if a1 == self.n {
            self.pos = a1;
            return self.fail_now(ErrKind::UnexpectedEnd);
        }
        let name = self.input.substring_char(a0, a1);
        self.pos = a1;
        self.move_over_whitespaces();
        if self.pos == self.n {
            return self.fail_now(ErrKind::UnexpectedEnd);
        }
        let pc = self.get_last_char();
        if pc.ch != '=' {
            return self.fail_now(ErrKind::AttrMalformed);
        }
        self.move_next_char();
        self.move_over_whitespaces();
        if self.pos == self.n {
            return self.fail_now(ErrKind::UnexpectedEnd);
        }
        let pc2 = self.get_last_char();
        if pc2.ch != '"' {
            return self.fail_now(ErrKind::AttrMalformed);
        }
        self.move_next_char();
        let v0 = self.pos;
        let q = self.scan_from(v0, Stop::Quote);
        if q == self.n {
            self.pos = q;
            return self.fail_now(ErrKind::UnexpectedEnd);
        }
        let value = self.input.substring_char(v0, q);
        self.pos = q + 1;
        self.move_over_whitespaces();
        RawEvent::Attr(name, value)
    }

    /// Read an end tag, entered at its `/`: the name up to white space or
    /// `>`, then the required `>`.  When only white space follows, the input
    /// is complete and the machine becomes terminal.
    fn read_end_element(&mut self) -> (r: RawEvent<'a>)
        requires
            old(self).wf(),
            old(self).failed is None,
            old(self).pos < old(self).n,
        ensures
            final(self).wf(),
            steady(*old(self), *final(self)),
            ({
                let (lex, m2) = scan_end_tag(old(self).src(), old(self).m());
                raw_matches(r, lex) && final(self).m() == m2
            }),
    {
        self.move_next_char();
        self.move_over_whitespaces();
        if self.pos == self.n {
            return self.fail_now(ErrKind::UnexpectedEnd);
        }
        let e = self.pos;
        let j = self.scan_from(e, Stop::EndDelim);
        if j == self.n {
            self.pos = j;
            return self.fail_now(ErrKind::UnexpectedEnd);
        }
        let name = self.input.substring_char(e, j);
        self.pos = j;
        self.move_over_whitespaces();
        if self.pos == self.n {
            return self.fail_now(ErrKind::UnexpectedEnd);
        }
        let pc = self.get_last_char();
        if pc.ch != '>' {
            return self.fail_now(ErrKind::EndTagMissingGt);
        }
        self.move_next_char();
        let ts = self.pos;
        self.move_over_whitespaces();
        if self.pos == self.n {
            self.state = TagState::Done;
            self.text_start = self.n;
            return RawEvent::End(name);
        }
        self.state = TagState::OutsideOfTag;
        self.text_start = ts;
        RawEvent::End(name)
    }

    /// Read a comment, entered at its `!`: the `!` and the two `-` are
    /// consumed, then the text up to the first `-->`.
    fn read_comment(&mut self) -> (r: RawEvent<'a>)
        requires
            old(self).wf(),
            old(self).failed is None,
            old(self).pos < old(self).n,
        ensures
            final(self).wf(),
            steady(*old(self), *final(self)),
            ({
                let (lex, m2) = scan_comment(old(self).src(), old(self).m());
                raw_matches(r, lex) && final(self).m() == m2
            }),
    {
        if self.n - self.pos <= 3 {
            self.pos = self.n;
            return self.fail_now(ErrKind::UnexpectedEnd);
        }
        self.move_next_char();
        self.move_next_char();
        self.move_next_char();
        let c0 = self.pos;
        let q = self.scan_comment_close_from(c0);
        if q == self.n {
            self.pos = q;
            return self.fail_now(ErrKind::UnexpectedEnd);
        }
        proof {
            lemma_find_comment_close(self.input@, c0 as int);
        }
        let text = self.input.substring_char(c0, q);
        self.pos = q + 3;
        self.state = TagState::OutsideOfTag;
        self.text_start = q + 3;
        RawEvent::Comment(text)
    }

    /// Produce the next lexical event, exactly as [`spec_step`] prescribes
    /// for the machine's current state.
    ///
    /// The `>` that closes a start tag, and a comment when the machine is
    /// configured to skip comments, produce no event of their own: the loop
    /// continues with what follows, as the recursion in `spec_step` does.
    pub fn read_token_internal(&mut self) -> (r: RawEvent<'a>)
        requires
            old(self).wf(),
        ensures
            final(self).wf(),
            final(self).src() == old(self).src(),
            final(self).emits() == old(self).emits(),
            raw_matches(r, spec_step(old(self).src(), old(self).m(), old(self).emits()).0),
            final(self).m() == spec_step(old(self).src(), old(self).m(), old(self).emits()).1,
    {
        let ghost s = self.src();
        let ghost ec = self.emits();
        loop
            invariant
                self.wf(),
                self.src() == s,
                self.emits() == ec,
                s == old(self).src(),
                ec == old(self).emits(),
                spec_step(s, self.m(), ec) == spec_step(s, old(self).m(), ec),
            decreases self.n - self.pos,
        {
            let ghost m1 = self.m();
            match self.state {
                TagState::Done => {
                    match self.failed {
                        Some(k) => {
                            return RawEvent::Fail(k);
                        }
                        None => {
                            return RawEvent::Eof;
                        }
                    }
                }
                TagState::OutsideOfTag => {
                    proof {
                        lemma_find(s, m1.pos, Stop::NonWs);
                    }
                    self.move_over_whitespaces();
                    if self.pos == self.n {
                        self.state = TagState::Done;
                        self.text_start = self.n;
                        return RawEvent::Eof;
                    }
                    let pc = self.get_last_char();
                    if pc.ch != '<' {
                        proof {
                            lemma_find_lt_skip_ws(s, m1.pos);
                            assert(scan_text(s, self.m()) == scan_text(s, m1));
                        }
                        return self.read_text_node();
                    }
                    let ghost i = skip_ws(s, m1.pos);
                    self.move_next_char();
                    self.move_over_whitespaces();
                    if self.pos == self.n {
                        return self.fail_now(ErrKind::UnexpectedEnd);
                    }
                    let ghost mb = self.m();
                    proof {
                        assert(mb == at_pos(m1, mb.pos));
                    }
                    let pc2 = self.get_last_char();
                    if pc2.ch == '!' {
                        let r = self.read_comment();
                        if self.emit_comments {
                            return r;
                        }
                        match r {
                            RawEvent::Fail(_) => {
                                return r;
                            }
                            _ => {}
                        }
                        proof {
                            let (lex, m2) = scan_comment(s, mb);
                            assert(!(lex is Fail));
                            assert(mb.pos + 3 < s.len());
                            lemma_find_comment_close(s, mb.pos + 3);
                        }
                    } else if pc2.ch == '/' {
                        return self.read_end_element();
                    } else {
                        proof {
                            lemma_find(s, i + 1, Stop::NonWs);
                            assert(scan_element_name(s, at_pos(m1, i + 1))
                                == scan_element_name(s, mb));
                        }
                        return self.read_element_name();
                    }
                }
                TagState::InsideOfTag => {
                    proof {
                        lemma_find(s, m1.pos, Stop::NonWs);
                    }
                    self.move_over_whitespaces();
                    if self.pos == self.n {
                        return self.fail_now(ErrKind::UnexpectedEnd);
                    }
                    let pc = self.get_last_char();
                    if pc.ch == '>' {
                        self.move_next_char();
                        self.state = TagState::OutsideOfTag;
                        self.text_start = self.pos;
                    } else if pc.ch == '/' {
                        self.move_next_char();
                        self.move_over_whitespaces();
                        if self.pos == self.n {
                            return self.fail_now(ErrKind::UnexpectedEnd);
                        }
                        let pc2 = self.get_last_char();
                        if pc2.ch != '>' {
                            return self.fail_now(ErrKind::SelfCloseSlash);
                        }
                        self.move_next_char();
                        self.state = TagState::OutsideOfTag;
                        self.text_start = self.pos;
                        let empty = self.input.substring_char(0, 0);
                        proof {
                            assert(empty@ =~= Seq::<char>::empty());
                        }
                        return RawEvent::End(empty);
                    } else {
                        let ghost mi = self.m();
                        proof {
                            assert(scan_attribute(s, m1) == scan_attribute(s, mi));
                        }
                        return self.read_attribute();
                    }
                }
            }
        }
    }
}

} // verus!
