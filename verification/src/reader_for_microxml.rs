//! The event reader: the front end that consumes comments silently.
//!
//! [`ReaderForMicroXml::read_event`] yields one [`Event`] per call; comments
//! are not data here, so the machine reads past them and returns the event
//! that follows.  [`Event::Error`] and [`Event::Eof`] are terminal: every
//! later call returns the same event again.

use vstd::prelude::*;
use crate::machine::{Machine, RawEvent, wf_implies_m_wf};
use crate::model::{ErrKind, Lex, MState, init_state, spec_step, lemma_step};

verus! {

/// One lexical event.  Every borrowed string is a slice of the original
/// input.
#[derive(Clone, Debug)]
pub enum Event<'a> {
    /// Start of an element, with its name.
    StartElement(&'a str),
    /// End of an element: the end tag's name, or `""` for a self-closing
    /// tag.
    EndElement(&'a str),
    /// An attribute's name and its exact, un-decoded value.
    Attribute(&'a str, &'a str),
    /// A text run: the exact characters between a `>` and the next `<`,
    /// white space included.
    TextNode(&'a str),
    /// A malformed construct, with a borrowed description; terminal.
    Error(&'static str),
    /// Clean end of input; terminal.
    Eof,
}

/// The message this reader reports for each malformed construct.
pub open spec fn err_text(k: ErrKind) -> Seq<char> {
    match k {
        ErrKind::EmptyName => "Element name is empty."@,
        ErrKind::SelfCloseSlash => "Tag has / but not />"@,
        ErrKind::AttrMalformed => "Attribute does not have the char = ."@,
        ErrKind::EndTagMissingGt => "End Element does not have > ."@,
        ErrKind::UnexpectedEnd => "Eof on incorrect position."@,
    }
}

/// Whether one result of [`ReaderForMicroXml::read_event`] carries exactly
/// the specification event `lex`.  This reader never returns a comment.
pub open spec fn event_matches<'a>(r: Event<'a>, lex: Lex) -> bool {
    match lex {
        Lex::Start(x) => match r {
            Event::StartElement(t) => t@ == x,
            _ => false,
        },
        Lex::End(x) => match r {
            Event::EndElement(t) => t@ == x,
            _ => false,
        },
        Lex::Attr(x, y) => match r {
            Event::Attribute(t, u) => t@ == x && u@ == y,
            _ => false,
        },
        Lex::Text(x) => match r {
            Event::TextNode(t) => t@ == x,
            _ => false,
        },
        Lex::Comment(_) => false,
        Lex::Fail(k) => match r {
            Event::Error(m) => m@ == err_text(k),
            _ => false,
        },
        Lex::Eof => match r {
            Event::Eof => true,
            _ => false,
        },
    }
}

/// The message for error `k`, as a borrowed string.
fn err_message(k: ErrKind) -> (r: &'static str)
    ensures
        r@ == err_text(k),
{
    match k {
        ErrKind::EmptyName => "Element name is empty.",
        ErrKind::SelfCloseSlash => "Tag has / but not />",
        ErrKind::AttrMalformed => "Attribute does not have the char = .",
        ErrKind::EndTagMissingGt => "End Element does not have > .",
        ErrKind::UnexpectedEnd => "Eof on incorrect position.",
    }
}

/// A reader over a borrowed input buffer, yielding one event per call.
/// This front end skips comments.
pub struct ReaderForMicroXml<'a> {
    machine: Machine<'a>,
}

/// A well-formed reader is in a well-formed abstract state.
pub proof fn lemma_reader_wf(r: ReaderForMicroXml)
    requires
        r.wf(),
    ensures
        crate::model::m_wf(r.src(), r.m()),
{
    wf_implies_m_wf(r.machine);
}

impl<'a> ReaderForMicroXml<'a> {
    /// The input as a sequence of characters.
    pub closed spec fn src(self) -> Seq<char> {
        self.machine.src()
    }

    /// The abstract state the reader is in.
    pub closed spec fn m(self) -> MState {
        self.machine.m()
    }

    /// The reader's invariant.
    pub closed spec fn wf(self) -> bool {
        self.machine.wf() && !self.machine.emits()
    }

    /// A reader over `input`, positioned at the first character.  The input
    /// is only borrowed; nothing is copied.  An empty input is allowed: the
    /// first read then returns [`Event::Eof`].
    pub fn new(input: &'a str) -> (r: ReaderForMicroXml<'a>)
        ensures
            r.wf(),
            r.src() == input@,
            r.m() == init_state(),
    {
        ReaderForMicroXml { machine: Machine::new(input, false) }
    }

    /// Read the next event, exactly as [`spec_step`] prescribes for a
    /// machine that skips comments.  After [`Event::Error`] or
    /// [`Event::Eof`], every later call returns the same event.
    pub fn read_event(&mut self) -> (r: Event<'a>)
        requires
            old(self).wf(),
        ensures
            final(self).wf(),
            final(self).src() == old(self).src(),
            event_matches(r, spec_step(old(self).src(), old(self).m(), false).0),
            final(self).m() == spec_step(old(self).src(), old(self).m(), false).1,
    {
        proof {
            wf_implies_m_wf(self.machine);
            lemma_step(self.src(), self.m(), false);
        }
        match self.machine.read_token_internal() {
            RawEvent::Start(t) => Event::StartElement(t),
            RawEvent::Attr(t, u) => Event::Attribute(t, u),
            RawEvent::Text(t) => Event::TextNode(t),
            RawEvent::End(t) => Event::EndElement(t),
            RawEvent::Comment(_) => {
                proof {
                    assert(false);
                }
                Event::Eof
            }
            RawEvent::Fail(k) => Event::Error(err_message(k)),
            RawEvent::Eof => Event::Eof,
        }
    }
}

} // verus!
