//! Correct nesting of start and end events on well-formed fragments.
//!
//! [`wf_fragment`] is a grammar of well-formed fragments: elements with
//! matching end tags, attributes in name-`=`-value form, text runs and
//! comments, with white space allowed wherever the reader skips it.
//! [`theorem_nesting`] proves that on such input the stream of events is
//! correctly nested: scanning the start and end events with a stack of
//! names ([`push_pop`]) closes every element it opens, innermost first —
//! each end event carries the innermost open name, or the empty name of a
//! self-closing tag — and leaves nothing open.  Malformed input is outside
//! the grammar, and the reader indeed passes mismatched names through
//! unchecked.

use vstd::prelude::*;
use crate::chars::is_ws;
use crate::model::{TagState, Lex, MState, m_wf, init_state, spec_step, stream};
use crate::scan::{Stop, stops, find, skip_ws, find_comment_close, lemma_find,
    lemma_find_comment_close, lemma_find_lt_skip_ws};

verus! {

/// The characters a well-formed name is made of: nothing that delimits
/// names, attributes, values or tags.
pub open spec fn name_char(c: char) -> bool {
    &&& !is_ws(c)
    &&& c != '<'
    &&& c != '>'
    &&& c != '/'
    &&& c != '!'
    &&& c != '='
    &&& c != '"'
}

/// All characters of `[i, j)` are name characters.
pub open spec fn all_name_chars(s: Seq<char>, i: int, j: int) -> bool {
    forall|p: int| i <= p < j ==> name_char(#[trigger] s[p])
}

/// Where the attribute that starts at `i` ends: one past its closing quote.
pub open spec fn attr_end(s: Seq<char>, i: int) -> int {
    let a1 = find(s, i, Stop::AttrDelim);
    let a2 = skip_ws(s, a1);
    let a4 = skip_ws(s, a2 + 1);
    let q = find(s, a4 + 1, Stop::Quote);
    q + 1
}

/// A well-formed attribute starts at `i`: a non-empty name, `=` with white
/// space allowed around it, and a `"`-delimited value, all inside the input.
pub open spec fn wf_attr_at(s: Seq<char>, i: int) -> bool {
    let a1 = find(s, i, Stop::AttrDelim);
    let a2 = skip_ws(s, a1);
    let a4 = skip_ws(s, a2 + 1);
    let q = find(s, a4 + 1, Stop::Quote);
    &&& 0 <= i < s.len()
    &&& i < a1 < s.len()
    &&& all_name_chars(s, i, a1)
    &&& a2 < s.len() && s[a2] == '='
    &&& a4 < s.len() && s[a4] == '"'
    &&& q < s.len()
}

/// Well-formed attributes fill `[p, g)`: either `p` is already the tag's
/// terminator `g`, or one attribute begins at `p` and the rest follow its
/// trailing white space.
pub open spec fn wf_attrs(s: Seq<char>, p: int, g: int) -> bool
    decreases g - p,
    via wf_attrs_decreases
{
    if p >= g {
        p == g
    } else {
        &&& wf_attr_at(s, p)
        &&& attr_end(s, p) <= g
        &&& skip_ws(s, attr_end(s, p)) <= g
        &&& wf_attrs(s, skip_ws(s, attr_end(s, p)), g)
    }
}

#[via_fn]
proof fn wf_attrs_decreases(s: Seq<char>, p: int, g: int) {
    if 0 <= p && p <= s.len() {
        lemma_find(s, p, Stop::AttrDelim);
        let a1 = find(s, p, Stop::AttrDelim);
        if 0 <= a1 && a1 <= s.len() {
            lemma_find(s, a1, Stop::NonWs);
            let a2 = skip_ws(s, a1);
            if 0 <= a2 + 1 && a2 + 1 <= s.len() {
                lemma_find(s, a2 + 1, Stop::NonWs);
                let a4 = skip_ws(s, a2 + 1);
                if 0 <= a4 + 1 && a4 + 1 <= s.len() {
                    lemma_find(s, a4 + 1, Stop::Quote);
                    let q = find(s, a4 + 1, Stop::Quote);
                    if 0 <= q + 1 && q + 1 <= s.len() {
                        lemma_find(s, q + 1, Stop::NonWs);
                    }
                }
            }
        }
    }
}

/// The `/` or `>` that ends a tag's attributes, strictly inside `[i, j)`.
pub open spec fn tag_terminator(s: Seq<char>, i: int, j: int, g: int) -> bool {
    i < g < j && (s[g] == '/' || s[g] == '>')
}

/// A possible extent `[t, je)` of an element that starts at `t`.
pub open spec fn elem_extent(s: Seq<char>, t: int, je: int) -> bool {
    t < je <= s.len() && s[t] == '<'
}

/// A well-formed element fills `[i, j)` exactly: `<`, a non-empty name of
/// name characters, attributes, and then either `/` white space `>` closing
/// the element at `j`, or `>`, content, and a matching end tag whose `>`
/// stands at `j - 1`.  `g` is the position of the `/` or `>` that ends the
/// attributes.
pub open spec fn wf_elem(s: Seq<char>, i: int, j: int) -> bool
    decreases j - i, 1int,
    via wf_elem_decreases
{
    let b = skip_ws(s, i + 1);
    let ne = find(s, b, Stop::NameDelim);
    let p0 = skip_ws(s, ne);
    &&& 0 <= i
    &&& i < j <= s.len()
    &&& s[i] == '<'
    &&& b < s.len()
    &&& ne < s.len()
    &&& b < ne
    &&& all_name_chars(s, b, ne)
    &&& p0 < s.len()
    &&& exists|g: int|
        #![trigger tag_terminator(s, i, j, g)]
        {
            &&& tag_terminator(s, i, j, g)
            &&& wf_elem_with(s, i, j, g)
        }
}

/// The tail of a well-formed element whose attributes end at `g`.
pub open spec fn wf_elem_with(s: Seq<char>, i: int, j: int, g: int) -> bool
    decreases j - i, 0int,
    via wf_elem_with_decreases
{
    let b = skip_ws(s, i + 1);
    let ne = find(s, b, Stop::NameDelim);
    let p0 = skip_ws(s, ne);
    &&& i < g
    &&& p0 <= g < j
    &&& wf_attrs(s, p0, g)
    &&& if s[g] == '/' {
        &&& skip_ws(s, g + 1) == j - 1
        &&& s[j - 1] == '>'
    } else {
        &&& s[g] == '>'
        &&& wf_content(s, g + 1, j, s.subrange(b, ne))
    }
}

#[via_fn]
proof fn wf_elem_with_decreases(s: Seq<char>, i: int, j: int, g: int) {
}

/// Well-formed content of an element named `name` fills `[p, j)` together
/// with the element's end tag: text runs, comments and child elements, and
/// then the end tag `</` `name` `>` whose `>` stands at `j - 1`.
pub open spec fn wf_content(s: Seq<char>, p: int, j: int, name: Seq<char>) -> bool
    decreases j - p, 2int,
    via wf_content_decreases
{
    let t = find(s, p, Stop::Lt);
    &&& 0 <= p <= j <= s.len()
    &&& t < j
    &&& ({
        let b = skip_ws(s, t + 1);
        &&& b < s.len()
        &&& if s[b] == '/' {
            let e = skip_ws(s, b + 1);
            let ne2 = find(s, e, Stop::EndDelim);
            let k = skip_ws(s, ne2);
            &&& e < s.len()
            &&& ne2 < s.len()
            &&& k < s.len()
            &&& s.subrange(e, ne2) == name
            &&& s[k] == '>'
            &&& k == j - 1
        } else if s[b] == '!' {
            let c0 = b + 3;
            let qq = find_comment_close(s, c0);
            &&& c0 < s.len()
            &&& qq < s.len()
            &&& qq + 3 <= j
            &&& wf_content(s, qq + 3, j, name)
        } else {
            exists|je: int|
                #![trigger elem_extent(s, t, je)]
                {
                    &&& elem_extent(s, t, je)
                    &&& je <= j
                    &&& wf_elem(s, t, je)
                    &&& wf_content(s, je, j, name)
                }
        }
    })
}

#[via_fn]
proof fn wf_elem_decreases(s: Seq<char>, i: int, j: int) {
    if 0 <= i + 1 && i + 1 <= s.len() {
        lemma_find(s, i + 1, Stop::NonWs);
        let b = skip_ws(s, i + 1);
        if 0 <= b && b <= s.len() {
            lemma_find(s, b, Stop::NameDelim);
            let ne = find(s, b, Stop::NameDelim);
            if 0 <= ne && ne <= s.len() {
                lemma_find(s, ne, Stop::NonWs);
            }
        }
    }
}

#[via_fn]
proof fn wf_content_decreases(s: Seq<char>, p: int, j: int, name: Seq<char>) {
    if 0 <= p && p <= s.len() {
        lemma_find(s, p, Stop::Lt);
        let t = find(s, p, Stop::Lt);
        if 0 <= t + 1 && t + 1 <= s.len() {
            lemma_find(s, t + 1, Stop::NonWs);
            let b = skip_ws(s, t + 1);
            if 0 <= b + 3 && b + 3 <= s.len() {
                lemma_find_comment_close(s, b + 3);
            }
        }
    }
}

/// A well-formed fragment from `p` to the end of the input: text runs,
/// comments and complete elements, in any number, with nothing left open
/// and no stray end tag.
pub open spec fn wf_fragment(s: Seq<char>, p: int) -> bool
    decreases s.len() - p, 1int,
    via wf_fragment_decreases
{
    let t = find(s, p, Stop::Lt);
    &&& 0 <= p <= s.len()
    &&& if t >= s.len() {
        true
    } else {
        let b = skip_ws(s, t + 1);
        &&& b < s.len()
        &&& s[b] != '/'
        &&& if s[b] == '!' {
            let c0 = b + 3;
            let qq = find_comment_close(s, c0);
            &&& c0 < s.len()
            &&& qq < s.len()
            &&& wf_fragment(s, qq + 3)
        } else {
            exists|je: int|
                #![trigger elem_extent(s, t, je)]
                {
                    &&& elem_extent(s, t, je)
                    &&& wf_elem(s, t, je)
                    &&& wf_fragment(s, je)
                }
        }
    }
}

#[via_fn]
proof fn wf_fragment_decreases(s: Seq<char>, p: int) {
    if 0 <= p && p <= s.len() {
        lemma_find(s, p, Stop::Lt);
        let t = find(s, p, Stop::Lt);
        if 0 <= t + 1 && t + 1 <= s.len() {
            lemma_find(s, t + 1, Stop::NonWs);
            let b = skip_ws(s, t + 1);
            if 0 <= b + 3 && b + 3 <= s.len() {
                lemma_find_comment_close(s, b + 3);
            }
        }
    }
}

/// Scan events with a stack of open names: a start event pushes its name;
/// an end event pops, and is accepted only when it carries the innermost
/// open name or the empty name of a self-closing tag; other events change
/// nothing.  `None` means an end event did not nest.
pub open spec fn push_pop(evs: Seq<Lex>, stack: Seq<Seq<char>>) -> Option<Seq<Seq<char>>>
    decreases evs.len(),
{
    if evs.len() == 0 {
        Some(stack)
    } else {
        match evs[0] {
            Lex::Start(n) => push_pop(evs.drop_first(), stack.push(n)),
            Lex::End(n) => if stack.len() > 0 && (n == stack.last() || n == Seq::<char>::empty()) {
                push_pop(evs.drop_first(), stack.drop_last())
            } else {
                None
            },
            _ => push_pop(evs.drop_first(), stack),
        }
    }
}

/// Correct nesting of a whole event sequence: scanning it from the empty
/// stack succeeds and closes every element it opens.
pub open spec fn nested_ok(evs: Seq<Lex>) -> bool {
    push_pop(evs, Seq::empty()) == Some(Seq::<Seq<char>>::empty())
}

/// Scanning a concatenation scans the first part, then the second from the
/// stack the first part left.
pub proof fn lemma_push_pop_concat(a: Seq<Lex>, b: Seq<Lex>, stack: Seq<Seq<char>>)
    ensures
        push_pop(a + b, stack) == (match push_pop(a, stack) {
            Some(st) => push_pop(b, st),
            None => None,
        }),
    decreases a.len(),
{
    if a.len() == 0 {
        assert(a + b =~= b);
    } else {
        assert((a + b).drop_first() =~= a.drop_first() + b);
        assert((a + b)[0] == a[0]);
        match a[0] {
            Lex::Start(n) => {
                lemma_push_pop_concat(a.drop_first(), b, stack.push(n));
            }
            Lex::End(n) => {
                if stack.len() > 0 && (n == stack.last() || n == Seq::<char>::empty()) {
                    lemma_push_pop_concat(a.drop_first(), b, stack.drop_last());
                }
            }
            _ => {
                lemma_push_pop_concat(a.drop_first(), b, stack);
            }
        }
    }
}

/// Two states on which one step agrees produce the same stream.
proof fn lemma_stream_eq(s: Seq<char>, m1: MState, m2: MState, ec: bool)
    requires
        spec_step(s, m1, ec) == spec_step(s, m2, ec),
    ensures
        stream(s, m1, ec) == stream(s, m2, ec),
{
}

/// An event that neither starts nor ends an element changes no stack.
proof fn lemma_push_pop_other(ev: Lex, rest: Seq<Lex>, stack: Seq<Seq<char>>)
    requires
        !(ev is Start),
        !(ev is End),
    ensures
        push_pop(seq![ev] + rest, stack) == push_pop(rest, stack),
{
    assert((seq![ev] + rest).drop_first() =~= rest);
    assert((seq![ev] + rest)[0] == ev);
}

/// A start event pushes its name.
proof fn lemma_push_pop_start(n: Seq<char>, rest: Seq<Lex>, stack: Seq<Seq<char>>)
    ensures
        push_pop(seq![Lex::Start(n)] + rest, stack) == push_pop(rest, stack.push(n)),
{
    assert((seq![Lex::Start(n)] + rest).drop_first() =~= rest);
    assert((seq![Lex::Start(n)] + rest)[0] == Lex::Start(n));
}

/// An end event carrying the innermost open name, or the empty name, pops.
proof fn lemma_push_pop_end(n: Seq<char>, rest: Seq<Lex>, stack: Seq<Seq<char>>)
    requires
        stack.len() > 0,
        n == stack.last() || n == Seq::<char>::empty(),
    ensures
        push_pop(seq![Lex::End(n)] + rest, stack) == push_pop(rest, stack.drop_last()),
{
    assert((seq![Lex::End(n)] + rest).drop_first() =~= rest);
    assert((seq![Lex::End(n)] + rest)[0] == Lex::End(n));
}

/// The state right after a complete element that filled `[_, j)`: outside
/// any tag, at `j`, with the next text run beginning there.
pub open spec fn elem_exit(j: int) -> MState {
    MState { pos: j, st: TagState::OutsideOfTag, text_start: j, failed: None }
}

/// Running the machine over well-formed attributes produces only attribute
/// events: for every stack, scanning the stream from before the attributes
/// is scanning the stream from the tag's terminator.
proof fn lemma_attrs_run(s: Seq<char>, m: MState, g: int, ec: bool)
    requires
        m_wf(s, m),
        m.st == TagState::InsideOfTag,
        wf_attrs(s, skip_ws(s, m.pos), g),
        g < s.len(),
        s[g] == '/' || s[g] == '>',
    ensures
        forall|stack: Seq<Seq<char>>| #[trigger] push_pop(stream(s, m, ec), stack) == push_pop(
            stream(s, MState { pos: g, st: TagState::InsideOfTag, text_start: m.text_start, failed: None }, ec),
            stack,
        ),
    decreases g - skip_ws(s, m.pos),
{
    let n = s.len() as int;
    let p = skip_ws(s, m.pos);
    lemma_find(s, m.pos, Stop::NonWs);
    let mexit = MState { pos: g, st: TagState::InsideOfTag, text_start: m.text_start, failed: None };
    if p == g {
        assert(skip_ws(s, g) == g);
        assert(spec_step(s, m, ec) == spec_step(s, mexit, ec));
        lemma_stream_eq(s, m, mexit, ec);
    } else {
        // one attribute at p, then the rest
        let a1 = find(s, p, Stop::AttrDelim);
        let a2 = skip_ws(s, a1);
        let a4 = skip_ws(s, a2 + 1);
        let q = find(s, a4 + 1, Stop::Quote);
        lemma_find(s, p, Stop::AttrDelim);
        lemma_find(s, a1, Stop::NonWs);
        lemma_find(s, a2 + 1, Stop::NonWs);
        lemma_find(s, a4 + 1, Stop::Quote);
        lemma_find(s, q + 1, Stop::NonWs);
        assert(name_char(s[p]));
        let stp = spec_step(s, m, ec);
        let ev = stp.0;
        let m2 = stp.1;
        assert(ev == Lex::Attr(s.subrange(p, a1), s.subrange(a4 + 1, q)));
        assert(m2 == MState {
            pos: skip_ws(s, q + 1),
            st: TagState::InsideOfTag,
            text_start: m.text_start,
            failed: None,
        });
        assert(skip_ws(s, m2.pos) == m2.pos);
        lemma_attrs_run(s, m2, g, ec);
        assert(stream(s, m, ec) == seq![ev] + stream(s, m2, ec));
        assert forall|stack: Seq<Seq<char>>| #[trigger] push_pop(stream(s, m, ec), stack)
            == push_pop(stream(s, mexit, ec), stack) by {
            lemma_push_pop_other(ev, stream(s, m2, ec), stack);
            assert(push_pop(stream(s, m2, ec), stack) == push_pop(stream(s, mexit, ec), stack));
        }
    }
}

/// Running the machine over a well-formed element produces a balanced run
/// of events: it opens the element, closes everything it opens, and leaves
/// every stack as it found it.
proof fn lemma_elem_run(s: Seq<char>, m: MState, j: int, ec: bool)
    requires
        m_wf(s, m),
        m.st == TagState::OutsideOfTag,
        wf_elem(s, skip_ws(s, m.pos), j),
    ensures
        forall|stack: Seq<Seq<char>>| #[trigger] push_pop(stream(s, m, ec), stack) == push_pop(
            stream(s, elem_exit(j), ec),
            stack,
        ),
    decreases j - skip_ws(s, m.pos), 1int,
{
    let n = s.len() as int;
    let i = skip_ws(s, m.pos);
    lemma_find(s, m.pos, Stop::NonWs);
    let b = skip_ws(s, i + 1);
    let ne = find(s, b, Stop::NameDelim);
    let p0 = skip_ws(s, ne);
    lemma_find(s, i + 1, Stop::NonWs);
    lemma_find(s, b, Stop::NameDelim);
    lemma_find(s, ne, Stop::NonWs);
    let name = s.subrange(b, ne);
    assert(name_char(s[b]));
    let stp = spec_step(s, m, ec);
    let ev = stp.0;
    let m1 = stp.1;
    assert(ev == Lex::Start(name));
    assert(m1 == MState {
        pos: p0,
        st: TagState::InsideOfTag,
        text_start: m.text_start,
        failed: None,
    });
    assert(stream(s, m, ec) == seq![ev] + stream(s, m1, ec));
    let g = choose|g: int|
        #![trigger tag_terminator(s, i, j, g)]
        {
            &&& tag_terminator(s, i, j, g)
            &&& wf_elem_with(s, i, j, g)
        };
    assert(wf_elem_with(s, i, j, g));
    assert(skip_ws(s, p0) == p0);
    lemma_attrs_run(s, m1, g, ec);
    let mexit_a = MState {
        pos: g,
        st: TagState::InsideOfTag,
        text_start: m.text_start,
        failed: None,
    };
    assert(skip_ws(s, g) == g);
    if s[g] == '/' {
        let k = skip_ws(s, g + 1);
        lemma_find(s, g + 1, Stop::NonWs);
        let stp2 = spec_step(s, mexit_a, ec);
        assert(stp2.0 == Lex::End(Seq::<char>::empty()));
        assert(stp2.1 == elem_exit(j));
        assert(stream(s, mexit_a, ec) == seq![stp2.0] + stream(s, elem_exit(j), ec));
        assert forall|stack: Seq<Seq<char>>| #[trigger] push_pop(stream(s, m, ec), stack)
            == push_pop(stream(s, elem_exit(j), ec), stack) by {
            lemma_push_pop_start(name, stream(s, m1, ec), stack);
            assert(push_pop(stream(s, m1, ec), stack.push(name)) == push_pop(
                stream(s, mexit_a, ec),
                stack.push(name),
            ));
            lemma_push_pop_end(
                Seq::<char>::empty(),
                stream(s, elem_exit(j), ec),
                stack.push(name),
            );
            assert(stack.push(name).drop_last() =~= stack);
        }
    } else {
        let m_g1 = MState {
            pos: g + 1,
            st: TagState::OutsideOfTag,
            text_start: g + 1,
            failed: None,
        };
        assert(spec_step(s, mexit_a, ec) == spec_step(s, m_g1, ec));
        lemma_stream_eq(s, mexit_a, m_g1, ec);
        lemma_content_run(s, m_g1, j, name, ec);
        assert forall|stack: Seq<Seq<char>>| #[trigger] push_pop(stream(s, m, ec), stack)
            == push_pop(stream(s, elem_exit(j), ec), stack) by {
            lemma_push_pop_start(name, stream(s, m1, ec), stack);
            assert(push_pop(stream(s, m1, ec), stack.push(name)) == push_pop(
                stream(s, mexit_a, ec),
                stack.push(name),
            ));
            assert(push_pop(stream(s, m_g1, ec), stack.push(name)) == push_pop(
                stream(s, elem_exit(j), ec),
                stack,
            ));
        }
    }
}

/// Running the machine over the well-formed content of an element named
/// `name`, up to and including its end tag, pops exactly the element's
/// name: for every stack, scanning from inside the element with the name
/// pushed is scanning from after the element with the stack as it was.
proof fn lemma_content_run(s: Seq<char>, m: MState, j: int, name: Seq<char>, ec: bool)
    requires
        m_wf(s, m),
        m.st == TagState::OutsideOfTag,
        wf_content(s, m.pos, j, name),
    ensures
        forall|stack: Seq<Seq<char>>| #[trigger] push_pop(stream(s, m, ec), stack.push(name))
            == push_pop(stream(s, elem_exit(j), ec), stack),
    decreases j - m.pos, 2int,
{
    let n = s.len() as int;
    let p = m.pos;
    let t = find(s, p, Stop::Lt);
    lemma_find(s, p, Stop::Lt);
    lemma_find(s, p, Stop::NonWs);
    let i = skip_ws(s, p);
    let b = skip_ws(s, t + 1);
    lemma_find(s, t + 1, Stop::NonWs);
    assert(i <= t) by {
        if t < i {
            assert(!stops(Stop::NonWs, s[t]));
            assert(false);
        }
    };
    if i < t {
        // a text run stands before the next `<`
        assert(s[i] != '<');
        let stp = spec_step(s, m, ec);
        assert(stp.0 == Lex::Text(s.subrange(m.text_start, t)));
        assert(stp.1 == MState { pos: t, st: TagState::OutsideOfTag, text_start: t, failed: None });
        assert(stream(s, m, ec) == seq![stp.0] + stream(s, stp.1, ec));
        assert(find(s, t, Stop::Lt) == t);
        assert(wf_content(s, t, j, name));
        lemma_content_run(s, stp.1, j, name, ec);
        assert forall|stack: Seq<Seq<char>>| #[trigger] push_pop(stream(s, m, ec), stack.push(name))
            == push_pop(stream(s, elem_exit(j), ec), stack) by {
            lemma_push_pop_other(stp.0, stream(s, stp.1, ec), stack.push(name));
            assert(push_pop(stream(s, stp.1, ec), stack.push(name)) == push_pop(
                stream(s, elem_exit(j), ec),
                stack,
            ));
        }
    } else {
        assert(i == t);
        assert(s[t] == '<');
        if s[b] == '/' {
            // the element's own end tag
            let e = skip_ws(s, b + 1);
            let ne2 = find(s, e, Stop::EndDelim);
            let k = skip_ws(s, ne2);
            lemma_find(s, b + 1, Stop::NonWs);
            lemma_find(s, e, Stop::EndDelim);
            lemma_find(s, ne2, Stop::NonWs);
            let stp = spec_step(s, m, ec);
            assert(stp.0 == Lex::End(name));
            lemma_find(s, j, Stop::NonWs);
            if skip_ws(s, j) >= n {
                assert(stp.1 == MState { pos: n, st: TagState::Done, text_start: n, failed: None });
                assert(stream(s, stp.1, ec) == seq![Lex::Eof]);
                assert(stream(s, elem_exit(j), ec) == seq![Lex::Eof]);
            } else {
                assert(stp.1 == MState {
                    pos: skip_ws(s, j),
                    st: TagState::OutsideOfTag,
                    text_start: j,
                    failed: None,
                });
                lemma_find_lt_skip_ws(s, j);
                assert(skip_ws(s, skip_ws(s, j)) == skip_ws(s, j));
                assert(spec_step(s, stp.1, ec) == spec_step(s, elem_exit(j), ec));
                lemma_stream_eq(s, stp.1, elem_exit(j), ec);
            }
            assert(stream(s, m, ec) == seq![stp.0] + stream(s, stp.1, ec));
            assert forall|stack: Seq<Seq<char>>|
                #[trigger] push_pop(stream(s, m, ec), stack.push(name)) == push_pop(
                stream(s, elem_exit(j), ec),
                stack,
            ) by {
                lemma_push_pop_end(name, stream(s, stp.1, ec), stack.push(name));
                assert(stack.push(name).drop_last() =~= stack);
            }
        } else if s[b] == '!' {
            let c0 = b + 3;
            let qq = find_comment_close(s, c0);
            lemma_find_comment_close(s, c0);
            let mc = MState {
                pos: qq + 3,
                st: TagState::OutsideOfTag,
                text_start: qq + 3,
                failed: None,
            };
            lemma_content_run(s, mc, j, name, ec);
            if ec {
                let stp = spec_step(s, m, ec);
                assert(stp.0 == Lex::Comment(s.subrange(c0, qq)));
                assert(stp.1 == mc);
                assert(stream(s, m, ec) == seq![stp.0] + stream(s, mc, ec));
                assert forall|stack: Seq<Seq<char>>|
                    #[trigger] push_pop(stream(s, m, ec), stack.push(name)) == push_pop(
                    stream(s, elem_exit(j), ec),
                    stack,
                ) by {
                    lemma_push_pop_other(stp.0, stream(s, mc, ec), stack.push(name));
                    assert(push_pop(stream(s, mc, ec), stack.push(name)) == push_pop(
                        stream(s, elem_exit(j), ec),
                        stack,
                    ));
                }
            } else {
                assert(spec_step(s, m, ec) == spec_step(s, mc, ec));
                lemma_stream_eq(s, m, mc, ec);
            }
        } else {
            // a child element
            let je = choose|je: int|
                #![trigger elem_extent(s, t, je)]
                {
                    &&& elem_extent(s, t, je)
                    &&& je <= j
                    &&& wf_elem(s, t, je)
                    &&& wf_content(s, je, j, name)
                };
            lemma_elem_run(s, m, je, ec);
            lemma_content_run(s, elem_exit(je), j, name, ec);
            assert forall|stack: Seq<Seq<char>>|
                #[trigger] push_pop(stream(s, m, ec), stack.push(name)) == push_pop(
                stream(s, elem_exit(j), ec),
                stack,
            ) by {
                assert(push_pop(stream(s, m, ec), stack.push(name)) == push_pop(
                    stream(s, elem_exit(je), ec),
                    stack.push(name),
                ));
                assert(push_pop(stream(s, elem_exit(je), ec), stack.push(name)) == push_pop(
                    stream(s, elem_exit(j), ec),
                    stack,
                ));
            }
        }
    }
}

/// Running the machine over a whole well-formed fragment leaves every
/// stack exactly as it found it: each element closes what it opens, and no
/// stray end event occurs.
proof fn lemma_fragment_run(s: Seq<char>, m: MState, ec: bool)
    requires
        m_wf(s, m),
        m.st == TagState::OutsideOfTag,
        wf_fragment(s, m.pos),
    ensures
        forall|stack: Seq<Seq<char>>| #[trigger] push_pop(stream(s, m, ec), stack) == Some(stack),
    decreases s.len() - m.pos,
{
    let n = s.len() as int;
    let p = m.pos;
    let t = find(s, p, Stop::Lt);
    lemma_find(s, p, Stop::Lt);
    lemma_find(s, p, Stop::NonWs);
    let i = skip_ws(s, p);
    assert(i <= t) by {
        if t < i {
            assert(!stops(Stop::NonWs, s[t]));
            assert(false);
        }
    };
    if t >= n {
        assert(t == n);
        if i >= n {
            assert(stream(s, m, ec) == seq![Lex::Eof]);
            assert forall|stack: Seq<Seq<char>>| #[trigger] push_pop(stream(s, m, ec), stack)
                == Some(stack) by {
                assert(seq![Lex::Eof].drop_first() =~= Seq::<Lex>::empty());
                assert(seq![Lex::Eof][0] == Lex::Eof);
                assert(push_pop(Seq::<Lex>::empty(), stack) == Some(stack));
            }
        } else {
            assert(s[i] != '<') by {
                assert(!stops(Stop::Lt, s[i]));
            };
            let stp = spec_step(s, m, ec);
            assert(stp.0 == Lex::Text(s.subrange(m.text_start, n)));
            assert(stp.1 == MState { pos: n, st: TagState::OutsideOfTag, text_start: n, failed: None });
            assert(stream(s, stp.1, ec) == seq![Lex::Eof]);
            assert(stream(s, m, ec) == seq![stp.0] + seq![Lex::Eof]);
            assert forall|stack: Seq<Seq<char>>| #[trigger] push_pop(stream(s, m, ec), stack)
                == Some(stack) by {
                lemma_push_pop_other(stp.0, seq![Lex::Eof], stack);
                assert(seq![Lex::Eof].drop_first() =~= Seq::<Lex>::empty());
                assert(seq![Lex::Eof][0] == Lex::Eof);
                assert(push_pop(Seq::<Lex>::empty(), stack) == Some(stack));
            }
        }
    } else {
        assert(s[t] == '<');
        let b = skip_ws(s, t + 1);
        lemma_find(s, t + 1, Stop::NonWs);
        if i < t {
            // a leading text run
            assert(s[i] != '<');
            let stp = spec_step(s, m, ec);
            assert(stp.0 == Lex::Text(s.subrange(m.text_start, t)));
            assert(stp.1 == MState { pos: t, st: TagState::OutsideOfTag, text_start: t, failed: None });
            assert(find(s, t, Stop::Lt) == t);
            assert(wf_fragment(s, t));
            lemma_fragment_run(s, stp.1, ec);
            assert(stream(s, m, ec) == seq![stp.0] + stream(s, stp.1, ec));
            assert forall|stack: Seq<Seq<char>>| #[trigger] push_pop(stream(s, m, ec), stack)
                == Some(stack) by {
                lemma_push_pop_other(stp.0, stream(s, stp.1, ec), stack);
                assert(push_pop(stream(s, stp.1, ec), stack) == Some(stack));
            }
        } else {
            assert(i == t);
            if s[b] == '!' {
                let c0 = b + 3;
                let qq = find_comment_close(s, c0);
                lemma_find_comment_close(s, c0);
                let mc = MState {
                    pos: qq + 3,
                    st: TagState::OutsideOfTag,
                    text_start: qq + 3,
                    failed: None,
                };
                lemma_fragment_run(s, mc, ec);
                if ec {
                    let stp = spec_step(s, m, ec);
                    assert(stp.0 == Lex::Comment(s.subrange(c0, qq)));
                    assert(stp.1 == mc);
                    assert(stream(s, m, ec) == seq![stp.0] + stream(s, mc, ec));
                    assert forall|stack: Seq<Seq<char>>| #[trigger] push_pop(stream(s, m, ec), stack)
                        == Some(stack) by {
                        lemma_push_pop_other(stp.0, stream(s, mc, ec), stack);
                        assert(push_pop(stream(s, mc, ec), stack) == Some(stack));
                    }
                } else {
                    assert(spec_step(s, m, ec) == spec_step(s, mc, ec));
                    lemma_stream_eq(s, m, mc, ec);
                }
            } else {
                // a root element
                let je = choose|je: int|
                    #![trigger elem_extent(s, t, je)]
                    {
                        &&& elem_extent(s, t, je)
                        &&& wf_elem(s, t, je)
                        &&& wf_fragment(s, je)
                    };
                lemma_elem_run(s, m, je, ec);
                lemma_fragment_run(s, elem_exit(je), ec);
                assert forall|stack: Seq<Seq<char>>| #[trigger] push_pop(stream(s, m, ec), stack)
                    == Some(stack) by {
                    assert(push_pop(stream(s, m, ec), stack) == push_pop(
                        stream(s, elem_exit(je), ec),
                        stack,
                    ));
                    assert(push_pop(stream(s, elem_exit(je), ec), stack) == Some(stack));
                }
            }
        }
    }
}

/// For all well-formed fragments, the produced start and end events nest
/// correctly: scanning the stream with a stack of names closes every
/// element it opens, innermost first — each end event carries the innermost
/// open name, or the empty name of a self-closing tag — and leaves nothing
/// open.  The reader itself checks none of this; on input outside
/// [`wf_fragment`] the stream need not nest.
pub proof fn theorem_nesting(s: Seq<char>, emit_comments: bool)
    requires
        wf_fragment(s, 0),
    ensures
        nested_ok(stream(s, init_state(), emit_comments)),
{
    lemma_fragment_run(s, init_state(), emit_comments);
    assert(push_pop(stream(s, init_state(), emit_comments), Seq::empty()) == Some(
        Seq::<Seq<char>>::empty(),
    ));
}

/// The grammar is inhabited: `<x/>` is a well-formed fragment.
proof fn wf_fragment_example()
    ensures
        wf_fragment(seq!['<', 'x', '/', '>'], 0),
{
    let s = seq!['<', 'x', '/', '>'];
    reveal_with_fuel(find, 6);
    reveal_with_fuel(find_comment_close, 6);
    assert(s.len() == 4);
    assert(skip_ws(s, 1) == 1);
    assert(find(s, 1, Stop::NameDelim) == 2);
    assert(skip_ws(s, 2) == 2);
    assert(wf_attrs(s, 2, 2));
    assert(skip_ws(s, 3) == 3);
    assert(tag_terminator(s, 0, 4, 2) && wf_elem_with(s, 0, 4, 2));
    assert(wf_elem(s, 0, 4));
    assert(find(s, 4, Stop::Lt) == 4);
    assert(wf_fragment(s, 4));
    assert(find(s, 0, Stop::Lt) == 0);
    assert(elem_extent(s, 0, 4) && wf_elem(s, 0, 4) && wf_fragment(s, 4));
}

} // verus!