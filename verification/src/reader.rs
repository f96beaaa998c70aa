//! The token reader: the front end that reports comments as data.
//!
//! [`ReaderForMicroXml::read_token`] yields `Some(Ok(token))` for each
//! lexical event, `Some(Err(message))` once a malformed construct is met
//! (and on every later call), and `None` at and after the clean end of
//! input.

use vstd::prelude::*;
use crate::machine::{Machine, RawEvent};
use crate::model::{ErrKind, Lex, MState, init_state, spec_step};

verus! {

/// One lexical token.  Every string is a slice of the original input.
#[derive(Clone, Debug)]
pub enum Token<'a> {
    /// Start of an element, with its name.
    StartElement(&'a str),
    /// End of an element: the end tag's name, or `""` for a self-closing
    /// tag.
    EndElement(&'a str),
    /// An attribute's name and its exact, un-decoded value.
    Attribute(&'a str, &'a str),
    /// A text run: the exact characters between a `>` and the next `<`,
    /// white space included.
    TextNode(&'a str),
    /// A comment's text, without the `<!--` and `-->` delimiters.
    Comment(&'a str),
}

/// The message this reader reports for each malformed construct.
pub open spec fn err_text(k: ErrKind) -> Seq<char> {
    match k {
        ErrKind::EmptyName => "Error: Element name is empty."@,
        ErrKind::SelfCloseSlash => "Error: Tag has / but not />"@,
        ErrKind::AttrMalformed => "Error: Attribute does not have the char = ."@,
        ErrKind::EndTagMissingGt => "End Element does not have > ."@,
        ErrKind::UnexpectedEnd => "Error: Unexpected end of input."@,
    }
}

/// Whether one result of [`ReaderForMicroXml::read_token`] carries exactly
/// the specification event `lex`.
pub open spec fn token_matches<'a>(r: Option<Result<Token<'a>, &'static str>>, lex: Lex) -> bool {
    match lex {
        Lex::Start(x) => match r {
            Some(Ok(Token::StartElement(t))) => t@ == x,
            _ => false,
        },
        Lex::End(x) => match r {
            Some(Ok(Token::EndElement(t))) => t@ == x,
            _ => false,
        },
        Lex::Attr(x, y) => match r {
            Some(Ok(Token::Attribute(t, u))) => t@ == x && u@ == y,
            _ => false,
        },
        Lex::Text(x) => match r {
            Some(Ok(Token::TextNode(t))) => t@ == x,
            _ => false,
        },
        Lex::Comment(x) => match r {
            Some(Ok(Token::Comment(t))) => t@ == x,
            _ => false,
        },
        Lex::Fail(k) => match r {
            Some(Err(m)) => m@ == err_text(k),
            _ => false,
        },
        Lex::Eof => r is None,
    }
}

/// The message for error `k`, as a borrowed string.
fn err_message(k: ErrKind) -> (r: &'static str)
    ensures
        r@ == err_text(k),
{
    match k {
        ErrKind::EmptyName => "Error: Element name is empty.",
        ErrKind::SelfCloseSlash => "Error: Tag has / but not />",
        ErrKind::AttrMalformed => "Error: Attribute does not have the char = .",
        ErrKind::EndTagMissingGt => "End Element does not have > .",
        ErrKind::UnexpectedEnd => "Error: Unexpected end of input.",
    }
}

/// A reader over a borrowed input buffer, yielding one token per call.
/// This front end reports comments.
pub struct ReaderForMicroXml<'a> {
    machine: Machine<'a>,
}

impl<'a> ReaderForMicroXml<'a> {
    /// The input as a sequence of characters.
    pub closed spec fn src(self) -> Seq<char> {
        self.machine.src()
    }

    /// The abstract state the reader is in.
    pub closed spec fn m(self) -> MState {
        self.machine.m()
    }

    /// The reader's invariant.
    pub closed spec fn wf(self) -> bool {
        self.machine.wf() && self.machine.emits()
    }

    /// A reader over `input`, positioned at the first character.  The input
    /// is only borrowed; nothing is copied.  An empty input is allowed: the
    /// first read then returns `None`.
    pub fn new(input: &'a str) -> (r: ReaderForMicroXml<'a>)
        ensures
            r.wf(),
            r.src() == input@,
            r.m() == init_state(),
    {
        ReaderForMicroXml { machine: Machine::new(input, true) }
    }

    /// Read the next token, exactly as [`spec_step`] prescribes: `None` at
    /// the clean end of input, `Some(Err(message))` for a malformed
    /// construct, and `Some(Ok(token))` otherwise.  After an error or the
    /// end of input, every later call returns the same result.
    pub fn read_token(&mut self) -> (r: Option<Result<Token<'a>, &'static str>>)
        requires
            old(self).wf(),
        ensures
            final(self).wf(),
            final(self).src() == old(self).src(),
            token_matches(r, spec_step(old(self).src(), old(self).m(), true).0),
            final(self).m() == spec_step(old(self).src(), old(self).m(), true).1,
    {
        match self.machine.read_token_internal() {
            RawEvent::Start(t) => Some(Ok(Token::StartElement(t))),
            RawEvent::Attr(t, u) => Some(Ok(Token::Attribute(t, u))),
            RawEvent::Text(t) => Some(Ok(Token::TextNode(t))),
            RawEvent::End(t) => Some(Ok(Token::EndElement(t))),
            RawEvent::Comment(t) => Some(Ok(Token::Comment(t))),
            RawEvent::Fail(k) => Some(Err(err_message(k))),
            RawEvent::Eof => None,
        }
    }
}

} // verus!
