//! Properties of the reader, stated over the abstract machine and proved
//! once for every input.
//!
//! Both front ends are proved to follow [`spec_step`] exactly, so each law
//! below holds of every token and event they produce.

use vstd::prelude::*;
use crate::model::{TagState, ErrKind, Lex, MState, m_wf, spec_step};
use crate::scan::{Stop, stops, find, skip_ws, lemma_find};

verus! {

/// White space inside a text node is preserved byte for byte: every text
/// run the machine produces is the verbatim run of input characters that
/// ends exactly where the machine stopped — character for character, with
/// nothing trimmed, decoded or altered.
pub proof fn lemma_text_node_verbatim(s: Seq<char>, m: MState, emit_comments: bool)
    requires
        m_wf(s, m),
    ensures
        ({
            let (lex, m2) = spec_step(s, m, emit_comments);
            lex matches Lex::Text(t) ==> {
                &&& 0 <= m2.pos - t.len()
                &&& t == s.subrange(m2.pos - t.len(), m2.pos)
                &&& forall|j: int| 0 <= j < t.len() ==> t[j] == s[m2.pos - t.len() + j]
            }
        }),
    decreases s.len() - m.pos, 1int,
{
    let (lex, m2) = spec_step(s, m, emit_comments);
    if lex is Text {
        match m.st {
            TagState::Done => {}
            TagState::OutsideOfTag => {
                let i = skip_ws(s, m.pos);
                lemma_find(s, m.pos, Stop::NonWs);
                if i < s.len() && s[i] != '<' {
                    lemma_find(s, m.pos, Stop::Lt);
                } else if i < s.len() {
                    let b = skip_ws(s, i + 1);
                    lemma_find(s, i + 1, Stop::NonWs);
                    if b < s.len() && s[b] == '!' && !emit_comments {
                        let (lex1, mc) = crate::model::scan_comment(s, crate::model::at_pos(m, b));
                        if !(lex1 is Fail) {
                            crate::scan::lemma_find_comment_close(s, b + 3);
                            lemma_text_node_verbatim(s, mc, emit_comments);
                        }
                    }
                }
            }
            TagState::InsideOfTag => {
                let i = skip_ws(s, m.pos);
                lemma_find(s, m.pos, Stop::NonWs);
                if i < s.len() && s[i] == '>' {
                    let m1 = MState {
                        pos: i + 1,
                        st: TagState::OutsideOfTag,
                        text_start: i + 1,
                        failed: None,
                    };
                    lemma_text_node_verbatim(s, m1, emit_comments);
                }
            }
        }
    }
}

/// A self-closing tag `<x/>` always produces exactly `Start("x")` followed
/// by `End("")`, whatever white space stands inside the tag: from a state
/// outside any tag whose next significant characters are `<`, a name, `/`
/// and `>` (each with white space allowed between them), the next two
/// events are the start event with that name and the end event with the
/// empty name, and the machine is back outside any tag.
pub proof fn lemma_self_closing_pair(s: Seq<char>, m: MState, emit_comments: bool)
    requires
        m_wf(s, m),
        m.st == TagState::OutsideOfTag,
        ({
            let i = skip_ws(s, m.pos);
            &&& i < s.len()
            &&& s[i] == '<'
        }),
        ({
            let i = skip_ws(s, m.pos);
            let b = skip_ws(s, i + 1);
            &&& b < s.len()
            &&& s[b] != '!'
            &&& s[b] != '/'
        }),
        ({
            let i = skip_ws(s, m.pos);
            let b = skip_ws(s, i + 1);
            let j = find(s, b, Stop::NameDelim);
            let k = skip_ws(s, j);
            &&& j < s.len()
            &&& j != b
            &&& k < s.len()
            &&& s[k] == '/'
        }),
        ({
            let i = skip_ws(s, m.pos);
            let b = skip_ws(s, i + 1);
            let j = find(s, b, Stop::NameDelim);
            let k = skip_ws(s, j);
            let g = skip_ws(s, k + 1);
            &&& g < s.len()
            &&& s[g] == '>'
        }),
    ensures
        ({
            let i = skip_ws(s, m.pos);
            let b = skip_ws(s, i + 1);
            let j = find(s, b, Stop::NameDelim);
            let (lex1, m1) = spec_step(s, m, emit_comments);
            let (lex2, m2) = spec_step(s, m1, emit_comments);
            &&& lex1 == Lex::Start(s.subrange(b, j))
            &&& lex2 == Lex::End(Seq::<char>::empty())
            &&& m2.st == TagState::OutsideOfTag
        }),
{
    let i = skip_ws(s, m.pos);
    let b = skip_ws(s, i + 1);
    let j = find(s, b, Stop::NameDelim);
    let k = skip_ws(s, j);
    lemma_find(s, m.pos, Stop::NonWs);
    lemma_find(s, i + 1, Stop::NonWs);
    lemma_find(s, b, Stop::NameDelim);
    lemma_find(s, j, Stop::NonWs);
    let (lex1, m1) = spec_step(s, m, emit_comments);
    assert(m1.pos == k && m1.st == TagState::InsideOfTag);
    assert(skip_ws(s, k) == k);
    lemma_find(s, k + 1, Stop::NonWs);
}

/// A `/` inside a tag that is not followed, white space aside, by `>` is
/// reported as an error, not as a self-closing tag.
pub proof fn lemma_slash_requires_gt(s: Seq<char>, m: MState, emit_comments: bool)
    requires
        m_wf(s, m),
        m.st == TagState::InsideOfTag,
        ({
            let i = skip_ws(s, m.pos);
            &&& i < s.len()
            &&& s[i] == '/'
        }),
        ({
            let i = skip_ws(s, m.pos);
            let k = skip_ws(s, i + 1);
            &&& k < s.len()
            &&& s[k] != '>'
        }),
    ensures
        spec_step(s, m, emit_comments).0 == Lex::Fail(ErrKind::SelfCloseSlash),
        spec_step(s, m, emit_comments).1.st == TagState::Done,
{
    lemma_find(s, m.pos, Stop::NonWs);
}

/// End of input immediately after a well-formed closing tag is a clean
/// terminal condition, not an error: the end event is produced, the machine
/// becomes terminal with no stored error, and every later read yields the
/// clean end of input.
pub proof fn lemma_eof_after_end_tag(s: Seq<char>, m: MState, emit_comments: bool)
    requires
        m_wf(s, m),
        m.st == TagState::OutsideOfTag,
        ({
            let i = skip_ws(s, m.pos);
            &&& i < s.len()
            &&& s[i] == '<'
        }),
        ({
            let i = skip_ws(s, m.pos);
            let b = skip_ws(s, i + 1);
            &&& b < s.len()
            &&& s[b] == '/'
        }),
        ({
            let i = skip_ws(s, m.pos);
            let b = skip_ws(s, i + 1);
            let e = skip_ws(s, b + 1);
            let j = find(s, e, Stop::EndDelim);
            let k = skip_ws(s, j);
            &&& e < s.len()
            &&& j < s.len()
            &&& k < s.len()
            &&& s[k] == '>'
            &&& skip_ws(s, k + 1) >= s.len()
        }),
    ensures
        ({
            let i = skip_ws(s, m.pos);
            let b = skip_ws(s, i + 1);
            let e = skip_ws(s, b + 1);
            let j = find(s, e, Stop::EndDelim);
            let (lex1, m1) = spec_step(s, m, emit_comments);
            &&& lex1 == Lex::End(s.subrange(e, j))
            &&& m1.st == TagState::Done
            &&& m1.failed is None
            &&& spec_step(s, m1, emit_comments).0 == Lex::Eof
            &&& spec_step(s, m1, emit_comments).1 == m1
        }),
{
    lemma_find(s, m.pos, Stop::NonWs);
}

/// Terminal states repeat: once the machine is done, every read returns the
/// stored error, or the clean end of input, and changes nothing.
pub proof fn lemma_terminal_repeats(s: Seq<char>, m: MState, emit_comments: bool)
    requires
        m.st == TagState::Done,
    ensures
        spec_step(s, m, emit_comments).1 == m,
        m.failed matches Some(k) ==> spec_step(s, m, emit_comments).0 == Lex::Fail(k),
        m.failed is None ==> spec_step(s, m, emit_comments).0 == Lex::Eof,
{
}

} // verus!
