//! A tree builder over the event reader: the downstream collaborator that
//! turns the event stream into a document tree.
//!
//! A start event opens a child element, an attribute event extends the
//! current element's attribute list, a text event appends a leaf, an end
//! event closes the current element (no name matching is performed), an
//! error event aborts the build, and the end of input finalizes it.

use vstd::prelude::*;
use vstd::string::StringExecFns;
use crate::model::{Lex, MState, ErrKind, m_wf, spec_step, lemma_step, init_state};
use crate::reader_for_microxml::{ReaderForMicroXml, Event, err_text, lemma_reader_wf};

verus! {

/// One node of the tree: a child element or a text leaf.
#[derive(Debug)]
pub enum Node {
    /// A child element.
    Element(Element),
    /// A text leaf, verbatim from the input.
    Text(String),
}

/// An element: its name, its attributes in order, and its child nodes in
/// order.
#[derive(Debug)]
pub struct Element {
    /// The element's name.
    pub name: String,
    /// The attributes, in the order they were read.
    pub attributes: Vec<Attribute>,
    /// The children: elements and text leaves, in the order they were read.
    pub nodes: Vec<Node>,
}

/// An attribute: its name and its exact, un-decoded value.
#[derive(Debug)]
pub struct Attribute {
    /// The attribute's name.
    pub name: String,
    /// The attribute's value.
    pub value: String,
}

/// The mathematical shape of an [`Attribute`].
pub struct SpecAttr {
    pub name: Seq<char>,
    pub value: Seq<char>,
}

/// The mathematical shape of a [`Node`].
pub enum SpecNode {
    Element(SpecElement),
    Text(Seq<char>),
}

/// The mathematical shape of an [`Element`].
pub struct SpecElement {
    pub name: Seq<char>,
    pub attributes: Seq<SpecAttr>,
    pub nodes: Seq<SpecNode>,
}

/// The shape of an attribute.
pub open spec fn attr_view(a: Attribute) -> SpecAttr {
    SpecAttr { name: a.name@, value: a.value@ }
}

/// The shape of a node.
pub open spec fn node_view(nd: Node) -> SpecNode
    decreases nd,
{
    match nd {
        Node::Element(e) => SpecNode::Element(element_view(e)),
        Node::Text(t) => SpecNode::Text(t@),
    }
}

/// The shapes of a sequence of nodes, in order.
pub open spec fn nodes_view(ns: Seq<Node>) -> Seq<SpecNode>
    decreases ns,
{
    if ns.len() == 0 {
        Seq::empty()
    } else {
        nodes_view(ns.subrange(0, ns.len() - 1)).push(node_view(ns[ns.len() - 1]))
    }
}

/// The shape of an element, with all its children.
pub open spec fn element_view(e: Element) -> SpecElement
    decreases e,
{
    SpecElement {
        name: e.name@,
        attributes: e.attributes@.map_values(|a: Attribute| attr_view(a)),
        nodes: nodes_view(e.nodes@),
    }
}

/// An element with a name and nothing else yet.
pub open spec fn empty_element(name: Seq<char>) -> SpecElement {
    SpecElement { name, attributes: Seq::empty(), nodes: Seq::empty() }
}

/// The element with one more attribute.
pub open spec fn push_attr(el: SpecElement, a: Seq<char>, v: Seq<char>) -> SpecElement {
    SpecElement { attributes: el.attributes.push(SpecAttr { name: a, value: v }), ..el }
}

/// The element with one more child node.
pub open spec fn push_node(el: SpecElement, nd: SpecNode) -> SpecElement {
    SpecElement { nodes: el.nodes.push(nd), ..el }
}

/// What filling an element from the event stream produces: the element as
/// extended by the events up to (and including) the end event or end of
/// input that closes it, or the error met first; and the machine state left
/// behind.
///
/// The `fuel` argument only bounds the recursion; any fuel of at least
/// `s.len() - m.pos + 1` gives the same result (`lemma_spec_fill_fuel`),
/// since every event moves the machine forward.
pub open spec fn spec_fill(s: Seq<char>, m: MState, el: SpecElement, fuel: nat) -> (Result<
    SpecElement,
    ErrKind,
>, MState)
    decreases fuel,
{
    if fuel == 0 {
        (Ok(el), m)
    } else {
        let (lex, m2) = spec_step(s, m, false);
        match lex {
            Lex::Eof => (Ok(el), m2),
            Lex::End(_) => (Ok(el), m2),
            Lex::Fail(k) => (Err(k), m2),
            Lex::Text(t) => spec_fill(s, m2, push_node(el, SpecNode::Text(t)), (fuel - 1) as nat),
            Lex::Attr(a, v) => spec_fill(s, m2, push_attr(el, a, v), (fuel - 1) as nat),
            Lex::Comment(_) => spec_fill(s, m2, el, (fuel - 1) as nat),
            Lex::Start(nm) => {
                let inner = spec_fill(s, m2, empty_element(nm), (fuel - 1) as nat);
                match inner.0 {
                    Ok(child) => spec_fill(
                        s,
                        inner.1,
                        push_node(el, SpecNode::Element(child)),
                        (fuel - 1) as nat,
                    ),
                    Err(k) => (Err(k), inner.1),
                }
            }
        }
    }
}

/// Filling preserves well-formedness and never moves the machine backwards.
pub proof fn lemma_spec_fill_state(s: Seq<char>, m: MState, el: SpecElement, fuel: nat)
    requires
        m_wf(s, m),
    ensures
        ({
            let (r, mf) = spec_fill(s, m, el, fuel);
            &&& m_wf(s, mf)
            &&& m.pos <= mf.pos
        }),
    decreases fuel,
{
    if fuel > 0 {
        lemma_step(s, m, false);
        let (lex, m2) = spec_step(s, m, false);
        match lex {
            Lex::Eof => {}
            Lex::End(_) => {}
            Lex::Fail(_) => {}
            Lex::Text(t) => {
                lemma_spec_fill_state(s, m2, push_node(el, SpecNode::Text(t)), (fuel - 1) as nat);
            }
            Lex::Attr(a, v) => {
                lemma_spec_fill_state(s, m2, push_attr(el, a, v), (fuel - 1) as nat);
            }
            Lex::Comment(_) => {
                lemma_spec_fill_state(s, m2, el, (fuel - 1) as nat);
            }
            Lex::Start(nm) => {
                lemma_spec_fill_state(s, m2, empty_element(nm), (fuel - 1) as nat);
                let inner = spec_fill(s, m2, empty_element(nm), (fuel - 1) as nat);
                if inner.0 is Ok {
                    lemma_spec_fill_state(
                        s,
                        inner.1,
                        push_node(el, SpecNode::Element(inner.0->Ok_0)),
                        (fuel - 1) as nat,
                    );
                }
            }
        }
    }
}

/// Any two sufficient fuels give the same filling: `s.len() - m.pos + 1` is
/// always enough, because every event moves the machine forward.
pub proof fn lemma_spec_fill_fuel(
    s: Seq<char>,
    m: MState,
    el: SpecElement,
    fuel1: nat,
    fuel2: nat,
)
    requires
        m_wf(s, m),
        fuel1 >= s.len() - m.pos + 1,
        fuel2 >= s.len() - m.pos + 1,
    ensures
        spec_fill(s, m, el, fuel1) == spec_fill(s, m, el, fuel2),
    decreases fuel1 + fuel2,
{
    lemma_step(s, m, false);
    let (lex, m2) = spec_step(s, m, false);
    match lex {
        Lex::Eof => {}
        Lex::End(_) => {}
        Lex::Fail(_) => {}
        Lex::Text(t) => {
            lemma_spec_fill_fuel(
                s,
                m2,
                push_node(el, SpecNode::Text(t)),
                (fuel1 - 1) as nat,
                (fuel2 - 1) as nat,
            );
        }
        Lex::Attr(a, v) => {
            lemma_spec_fill_fuel(
                s,
                m2,
                push_attr(el, a, v),
                (fuel1 - 1) as nat,
                (fuel2 - 1) as nat,
            );
        }
        Lex::Comment(_) => {
            lemma_spec_fill_fuel(s, m2, el, (fuel1 - 1) as nat, (fuel2 - 1) as nat);
        }
        Lex::Start(nm) => {
            lemma_spec_fill_fuel(s, m2, empty_element(nm), (fuel1 - 1) as nat, (fuel2 - 1) as nat);
            lemma_spec_fill_state(s, m2, empty_element(nm), (fuel1 - 1) as nat);
            let inner = spec_fill(s, m2, empty_element(nm), (fuel1 - 1) as nat);
            if inner.0 is Ok {
                lemma_spec_fill_fuel(
                    s,
                    inner.1,
                    push_node(el, SpecNode::Element(inner.0->Ok_0)),
                    (fuel1 - 1) as nat,
                    (fuel2 - 1) as nat,
                );
            }
        }
    }
}

/// Viewing a pushed node sequence appends the node's shape.
proof fn lemma_nodes_view_push(ns: Seq<Node>, nd: Node)
    ensures
        nodes_view(ns.push(nd)) == nodes_view(ns).push(node_view(nd)),
{
    let ns2 = ns.push(nd);
    assert(ns2.subrange(0, ns2.len() - 1) =~= ns);
    assert(ns2[ns2.len() - 1] == nd);
}

/// Viewing a pushed attribute sequence appends the attribute's shape.
proof fn lemma_attrs_view_push(attrs: Seq<Attribute>, a: Attribute)
    ensures
        attrs.push(a).map_values(|x: Attribute| attr_view(x)) == attrs.map_values(
            |x: Attribute| attr_view(x),
        ).push(attr_view(a)),
{
    let f = |x: Attribute| attr_view(x);
    assert(attrs.push(a).map_values(f) =~= attrs.map_values(f).push(attr_view(a)));
}

/// Fill `element` from `pp`'s events until the end event or end of input
/// that closes it, exactly as [`spec_fill`] prescribes: a start event opens
/// a child element and fills it recursively, an attribute event extends the
/// attribute list, a text event appends a leaf, and an error event aborts
/// the build with the error's message behind `"Error: "`.
pub fn fill_element(pp: &mut ReaderForMicroXml, element: &mut Element) -> (r: Result<(), String>)
    requires
        old(pp).wf(),
    ensures
        final(pp).wf(),
        final(pp).src() == old(pp).src(),
        ({
            let s = old(pp).src();
            let (res, mf) = spec_fill(
                s,
                old(pp).m(),
                element_view(*old(element)),
                (s.len() - old(pp).m().pos + 1) as nat,
            );
            &&& final(pp).m() == mf
            &&& match res {
                Ok(el2) => r is Ok && element_view(*final(element)) == el2,
                Err(k) => match r {
                    Err(e) => e@ == "Error: "@ + err_text(k),
                    Ok(_) => false,
                },
            }
        }),
    decreases old(pp).src().len() - old(pp).m().pos,
{
    let ghost s = pp.src();
    let ghost m0 = pp.m();
    let ghost el0 = element_view(*element);
    let ghost fuel0 = (s.len() - m0.pos + 1) as nat;
    proof {
        lemma_reader_wf(*pp);
    }
    loop
        invariant
            pp.wf(),
            pp.src() == s,
            m_wf(s, pp.m()),
            s == old(pp).src(),
            m0 == old(pp).m(),
            el0 == element_view(*old(element)),
            fuel0 == (s.len() - m0.pos + 1) as nat,
            m0.pos <= pp.m().pos,
            spec_fill(s, pp.m(), element_view(*element), (s.len() - pp.m().pos + 1) as nat)
                == spec_fill(s, m0, el0, fuel0),
        decreases s.len() - pp.m().pos,
    {
        let ghost m1 = pp.m();
        let ghost el1 = element_view(*element);
        let ghost fuel1 = (s.len() - m1.pos + 1) as nat;
        proof {
            lemma_step(s, m1, false);
        }
        let ev = pp.read_event();
        let ghost stp = spec_step(s, m1, false);
        match ev {
            Event::StartElement(name) => {
                let mut child = Element {
                    name: String::from_str(name),
                    attributes: Vec::new(),
                    nodes: Vec::new(),
                };
                proof {
                    assert(child.attributes@.map_values(|x: Attribute| attr_view(x))
                        =~= Seq::<SpecAttr>::empty());
                    assert(element_view(child) == empty_element(name@));
                    lemma_reader_wf(*pp);
                }
                let res = fill_element(pp, &mut child);
                proof {
                    lemma_spec_fill_fuel(
                        s,
                        stp.1,
                        empty_element(name@),
                        (fuel1 - 1) as nat,
                        (s.len() - stp.1.pos + 1) as nat,
                    );
                    lemma_spec_fill_state(s, stp.1, empty_element(name@), (fuel1 - 1) as nat);
                }
                let ghost inner = spec_fill(s, stp.1, empty_element(name@), (fuel1 - 1) as nat);
                match res {
                    Ok(_) => {
                        proof {
                            lemma_nodes_view_push(element.nodes@, Node::Element(child));
                        }
                        let ghost el_before = element_view(*element);
                        element.nodes.push(Node::Element(child));
                        proof {
                            assert(element_view(*element)
                                == push_node(el1, SpecNode::Element(inner.0->Ok_0)));
                            lemma_spec_fill_fuel(
                                s,
                                inner.1,
                                push_node(el1, SpecNode::Element(inner.0->Ok_0)),
                                (s.len() - inner.1.pos + 1) as nat,
                                (fuel1 - 1) as nat,
                            );
                        }
                    }
                    Err(e) => {
                        return Err(e);
                    }
                }
            }
            Event::Attribute(an, av) => {
                let at = Attribute { name: String::from_str(an), value: String::from_str(av) };
                proof {
                    lemma_attrs_view_push(element.attributes@, at);
                }
                element.attributes.push(at);
                proof {
                    assert(element_view(*element) == push_attr(el1, an@, av@));
                    lemma_spec_fill_fuel(
                        s,
                        stp.1,
                        push_attr(el1, an@, av@),
                        (s.len() - stp.1.pos + 1) as nat,
                        (fuel1 - 1) as nat,
                    );
                }
            }
            Event::TextNode(t) => {
                let leaf = Node::Text(String::from_str(t));
                proof {
                    lemma_nodes_view_push(element.nodes@, leaf);
                }
                element.nodes.push(leaf);
                proof {
                    assert(element_view(*element) == push_node(el1, SpecNode::Text(t@)));
                    lemma_spec_fill_fuel(
                        s,
                        stp.1,
                        push_node(el1, SpecNode::Text(t@)),
                        (s.len() - stp.1.pos + 1) as nat,
                        (fuel1 - 1) as nat,
                    );
                }
            }
            Event::EndElement(_) => {
                return Ok(());
            }
            Event::Eof => {
                return Ok(());
            }
            Event::Error(msg) => {
                let mut emsg = String::from_str("Error: ");
                emsg.append(msg);
                return Err(emsg);
            }
        }
    }
}

/// Parse a whole input into its root element: the first event must start an
/// element, which is then filled; anything else is the error
/// `"Error: no root element"`, and a malformed construct while filling
/// aborts with the error's message behind `"Error: "`.
pub fn get_root_element(input: &str) -> (r: Result<Element, String>)
    ensures
        ({
            let s = input@;
            let stp = spec_step(s, init_state(), false);
            match stp.0 {
                Lex::Start(nm) => {
                    let (res, mf) = spec_fill(
                        s,
                        stp.1,
                        empty_element(nm),
                        (s.len() - stp.1.pos + 1) as nat,
                    );
                    match res {
                        Ok(el) => match r {
                            Ok(root) => element_view(root) == el,
                            Err(_) => false,
                        },
                        Err(k) => match r {
                            Err(e) => e@ == "Error: "@ + err_text(k),
                            Ok(_) => false,
                        },
                    }
                },
                _ => match r {
                    Err(e) => e@ == "Error: no root element"@,
                    Ok(_) => false,
                },
            }
        }),
{
    let mut pp = ReaderForMicroXml::new(input);
    proof {
        lemma_reader_wf(pp);
        lemma_step(input@, init_state(), false);
    }
    match pp.read_event() {
        Event::StartElement(name) => {
            let mut root = Element {
                name: String::from_str(name),
                attributes: Vec::new(),
                nodes: Vec::new(),
            };
            proof {
                assert(root.attributes@.map_values(|x: Attribute| attr_view(x))
                    =~= Seq::<SpecAttr>::empty());
                assert(element_view(root) == empty_element(name@));
                lemma_reader_wf(pp);
            }
            match fill_element(&mut pp, &mut root) {
                Ok(_) => Ok(root),
                Err(e) => Err(e),
            }
        }
        _ => Err(String::from_str("Error: no root element")),
    }
}

} // verus!
