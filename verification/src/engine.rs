//! The tree assembler: a ghost model of the stack reduction, and the
//! executable parser proved against it.
use vstd::prelude::*;

use crate::ast::attrs_model;
use crate::ast::models;
use crate::ast::AttrsV;
use crate::ast::Attribute;
use crate::ast::ErrV;
use crate::ast::NodeV;
use crate::ast::ParseError;
use crate::ast::XMLElement;
use crate::ast::lemma_models_push;
use crate::ast::lemma_models_pointwise;
use crate::ast::vals_model;
use crate::grammar::classify;
use crate::grammar::TagV;
use crate::lexer::classify_tag;
use crate::lexer::find_first;
use crate::lexer::find_triple_first;
use crate::lexer::has_cdata_prefix;
use crate::lexer::is_blank_str;
use crate::lexer::Tag;
use vstd::string::StrSliceExecFns;
use crate::model::find_char;
use crate::model::find_triple;
use crate::model::is_blank;
use crate::model::split_sections;

verus! {

/// Ghost model of one pending stack entry: an open start-tag frame, a
/// finished node, or a raw text run.
#[verifier::ext_equal]
pub enum ItemV {
    Open { name: Seq<char>, attributes: AttrsV },
    Node { node: NodeV },
    Text { text: Seq<char> },
}

/// Ghost model of the assembler's state: the pending stack and the completed
/// top-level output, in order.
#[verifier::ext_equal]
pub struct StateV {
    pub stack: Seq<ItemV>,
    pub out: Seq<NodeV>,
}

pub open spec fn init_state() -> StateV {
    StateV { stack: Seq::empty(), out: Seq::empty() }
}

/// Reduce the stack for an end tag named `name`: pop entries, gathering
/// finished nodes into `children` and text runs into `contents` (both kept in
/// document order), until a matching open frame is popped — it becomes one
/// finished `Element` entry. An open frame of another name is dropped
/// silently; when the stack runs out, everything gathered is dropped.
pub open spec fn reduce_end(
    stack: Seq<ItemV>,
    name: Seq<char>,
    contents: Seq<Seq<char>>,
    children: Seq<NodeV>,
) -> Seq<ItemV>
    decreases stack.len(),
{
    if stack.len() == 0 {
        Seq::empty()
    } else {
        let rest = stack.drop_last();
        match stack.last() {
            ItemV::Open { name: n, attributes } => {
                if n == name {
                    rest.push(
                        ItemV::Node {
                            node: NodeV::Element { name: n, attributes, contents, children },
                        },
                    )
                } else {
                    reduce_end(rest, name, contents, children)
                }
            },
            ItemV::Node { node } => reduce_end(rest, name, contents, seq![node] + children),
            ItemV::Text { text } => reduce_end(rest, name, seq![text] + contents, children),
        }
    }
}

/// Place a finished node: straight into the output when nothing is open,
/// otherwise onto the stack as a pending child.
pub open spec fn place_node(st: StateV, node: NodeV) -> StateV {
    if st.stack.len() == 0 {
        StateV { out: st.out.push(node), ..st }
    } else {
        StateV { stack: st.stack.push(ItemV::Node { node }), ..st }
    }
}

/// Advance the state by one classified tag.
pub open spec fn step_tag(st: StateV, t: TagV) -> StateV {
    match t {
        TagV::Decl { name, attributes } => place_node(
            st,
            NodeV::EmptyElement { name, attributes },
        ),
        TagV::SelfClose { name, attributes } => place_node(
            st,
            NodeV::EmptyElement { name, attributes },
        ),
        TagV::Comment { text } => place_node(st, NodeV::Comment { text }),
        TagV::Cdata { text } => place_node(st, NodeV::Cdata { text }),
        TagV::Start { name, attributes } => StateV {
            stack: st.stack.push(ItemV::Open { name, attributes }),
            ..st
        },
        TagV::End { name } => StateV { stack: reduce_end(st.stack, name, seq![], seq![]), ..st },
    }
}

/// Advance the state by one raw section: its leading text (kept only when it
/// is not blank) and, from the first `<` on, its classified tag.
pub open spec fn step_section(st: StateV, raw: Seq<char>) -> Result<StateV, ErrV> {
    match find_char(raw, '<') {
        None => {
            if is_blank(raw) {
                Ok(st)
            } else {
                Ok(StateV { stack: st.stack.push(ItemV::Text { text: raw }), ..st })
            }
        },
        Some(i) => {
            let st1 = if is_blank(raw.take(i)) {
                st
            } else {
                StateV { stack: st.stack.push(ItemV::Text { text: raw.take(i) }), ..st }
            };
            match classify(raw.skip(i)) {
                Ok(t) => Ok(step_tag(st1, t)),
                Err(e) => Err(e),
            }
        },
    }
}

/// Run the assembler over the sections, in document order.
pub open spec fn run_sections(st: StateV, sections: Seq<Seq<char>>) -> Result<StateV, ErrV>
    decreases sections.len(),
{
    if sections.len() == 0 {
        Ok(st)
    } else {
        match step_section(st, sections[0]) {
            Ok(st1) => run_sections(st1, sections.skip(1)),
            Err(e) => Err(e),
        }
    }
}

/// At end of input, the finished elements still on the stack join the output,
/// bottom to top; every other pending entry is dropped.
pub open spec fn drain(stack: Seq<ItemV>) -> Seq<NodeV>
    decreases stack.len(),
{
    if stack.len() == 0 {
        Seq::empty()
    } else {
        let rest = drain(stack.drop_last());
        match stack.last() {
            ItemV::Node { node } => if node is Element {
                rest.push(node)
            } else {
                rest
            },
            _ => rest,
        }
    }
}

/// The whole parse, as a ghost function of the document text: slice into
/// sections, classify, assemble, then drain the stack.
pub open spec fn spec_parse(input: Seq<char>) -> Result<Seq<NodeV>, ErrV> {
    match run_sections(init_state(), split_sections(input)) {
        Ok(st) => Ok(st.out + drain(st.stack)),
        Err(e) => Err(e),
    }
}

pub proof fn lemma_run_cons(st: StateV, a: Seq<char>, rest: Seq<Seq<char>>)
    ensures
        run_sections(st, seq![a] + rest) == match step_section(st, a) {
            Ok(st1) => run_sections(st1, rest),
            Err(e) => Err(e),
        },
{
    let ss = seq![a] + rest;
    assert(ss[0] == a);
    assert(ss.skip(1) =~= rest);
}

/// One pending entry of the executable stack.
pub enum StackItem {
    Open { name: String, attributes: Vec<Attribute> },
    Node { node: XMLElement },
    Text { text: String },
}

impl StackItem {
    pub open spec fn model(self) -> ItemV {
        match self {
            StackItem::Open { name, attributes } => ItemV::Open {
                name: name@,
                attributes: attrs_model(attributes@),
            },
            StackItem::Node { node } => ItemV::Node { node: node.model() },
            StackItem::Text { text } => ItemV::Text { text: text@ },
        }
    }
}

pub open spec fn stack_model(s: Seq<StackItem>) -> Seq<ItemV> {
    s.map_values(|it: StackItem| it.model())
}

pub open spec fn state_model(stack: Seq<StackItem>, out: Seq<XMLElement>) -> StateV {
    StateV { stack: stack_model(stack), out: models(out) }
}

/// Place one finished node, as the ghost `place_node` says.
fn place_finished(node: XMLElement, stack: &mut Vec<StackItem>, out: &mut Vec<XMLElement>)
    ensures
        state_model(final(stack)@, final(out)@) == place_node(
            state_model(old(stack)@, old(out)@),
            node.model(),
        ),
{
    proof {
        lemma_models_pointwise(old(out)@);
    }
    if stack.len() == 0 {
        let ghost o0 = out@;
        out.push(node);
        proof {
            lemma_models_push(o0, node);
            assert(stack_model(stack@) =~= Seq::<ItemV>::empty());
            assert(stack_model(stack@).len() == 0);
        }
    } else {
        let ghost s0 = stack@;
        stack.push(StackItem::Node { node });
        proof {
            assert(stack_model(stack@) =~= stack_model(s0).push(
                ItemV::Node { node: node.model() },
            ));
            assert(stack_model(s0).len() > 0);
        }
    }
}

/// Advance the assembler by one classified tag, as the ghost `step_tag` says.
fn apply_tag(t: Tag, stack: &mut Vec<StackItem>, out: &mut Vec<XMLElement>)
    ensures
        state_model(final(stack)@, final(out)@) == step_tag(
            state_model(old(stack)@, old(out)@),
            t.model(),
        ),
{
    match t {
        Tag::Decl { name, attributes } => {
            place_finished(XMLElement::EmptyElement { name, attributes }, stack, out);
        },
        Tag::SelfClose { name, attributes } => {
            place_finished(XMLElement::EmptyElement { name, attributes }, stack, out);
        },
        Tag::Comment { text } => {
            place_finished(XMLElement::Comment { text }, stack, out);
        },
        Tag::Cdata { text } => {
            place_finished(XMLElement::Cdata { text }, stack, out);
        },
        Tag::Start { name, attributes } => {
            let ghost s0 = stack@;
            stack.push(StackItem::Open { name, attributes });
            proof {
                assert(stack_model(stack@) =~= stack_model(s0).push(
                    stack@.last().model(),
                ));
            }
        },
        Tag::End { name } => {
            let ghost r0 = reduce_end(stack_model(old(stack)@), name@, seq![], seq![]);
            let mut contents: Vec<String> = Vec::new();
            let mut children: Vec<XMLElement> = Vec::new();
            let mut matched: Option<(String, Vec<Attribute>)> = None;
            let mut done = false;
            proof {
                assert(vals_model(contents@) =~= Seq::<Seq<char>>::empty());
                assert(models(children@) =~= Seq::<NodeV>::empty());
            }
            while !done
                invariant
                    out@ == old(out)@,
                    if done {
                        match matched {
                            Some(p) => r0 == stack_model(stack@).push(
                                ItemV::Node {
                                    node: NodeV::Element {
                                        name: name@,
                                        attributes: attrs_model(p.1@),
                                        contents: vals_model(contents@),
                                        children: models(children@),
                                    },
                                },
                            ) && p.0@ == name@,
                            None => r0 == stack_model(stack@),
                        }
                    } else {
                        matched is None && r0 == reduce_end(
                            stack_model(stack@),
                            name@,
                            vals_model(contents@),
                            models(children@),
                        )
                    },
                decreases (if done {
                    0int
                } else {
                    stack@.len() as int + 1
                }),
            {
                let ghost s0 = stack@;
                let ghost c0 = contents@;
                let ghost k0 = children@;
                match stack.pop() {
                    None => {
                        done = true;
                        proof {
                            assert(stack_model(s0).len() == 0);
                            assert(stack_model(stack@) =~= Seq::<ItemV>::empty());
                        }
                    },
                    Some(item) => {
                        proof {
                            assert(stack@ =~= s0.drop_last());
                            assert(stack_model(s0).drop_last() =~= stack_model(stack@));
                            assert(stack_model(s0).last() == item.model());
                            assert(stack_model(s0).len() > 0);
                        }
                        match item {
                            StackItem::Open { name: n2, attributes } => {
                                if n2 == name {
                                    matched = Some((n2, attributes));
                                    done = true;
                                } else {
                                }
                            },
                            StackItem::Node { node } => {
                                children.insert(0, node);
                                proof {
                                    lemma_models_pointwise(k0);
                                    lemma_models_pointwise(children@);
                                    assert(models(children@) =~= seq![
                                        children@[0].model(),
                                    ] + models(k0));
                                }
                            },
                            StackItem::Text { text } => {
                                contents.insert(0, text);
                                proof {
                                    assert(vals_model(contents@) =~= seq![contents@[0]@] + vals_model(
                                        c0,
                                    ));
                                }
                            },
                        }
                    },
                }
            }
            match matched {
                Some(p) => {
                    let ghost s1 = stack@;
                    let elem = XMLElement::Element {
                        name: p.0,
                        attributes: p.1,
                        contents,
                        children,
                    };
                    stack.push(StackItem::Node { node: elem });
                    proof {
                        assert(stack_model(stack@) =~= stack_model(s1).push(
                            stack@.last().model(),
                        ));
                    }
                },
                None => {},
            }
        },
    }
}

/// Advance the assembler by one raw section, as the ghost `step_section`
/// says: the leading text run is kept unless blank, and the tag part, when
/// there is one, is classified and applied.
fn handle_section(section: &str, stack: &mut Vec<StackItem>, out: &mut Vec<XMLElement>) -> (r:
    Result<(), ParseError>)
    ensures
        match r {
            Ok(u) => step_section(state_model(old(stack)@, old(out)@), section@) == Ok::<
                StateV,
                ErrV,
            >(state_model(final(stack)@, final(out)@)),
            Err(e) => step_section(state_model(old(stack)@, old(out)@), section@) == Err::<
                StateV,
                ErrV,
            >(e.model()),
        },
{
    let n = section.unicode_len();
    match find_first(section, '<') {
        None => {
            if !is_blank_str(section) {
                let ghost s0 = stack@;
                stack.push(StackItem::Text { text: section.to_owned() });
                proof {
                    assert(stack_model(stack@) =~= stack_model(s0).push(
                        stack@.last().model(),
                    ));
                }
            }
            Ok(())
        },
        Some(i) => {
            let ghost st0 = state_model(stack@, out@);
            if i > 0 {
                let content = section.substring_char(0, i);
                proof {
                    assert(content@ =~= section@.take(i as int));
                }
                if !is_blank_str(content) {
                    let ghost s0 = stack@;
                    stack.push(StackItem::Text { text: content.to_owned() });
                    proof {
                        assert(stack_model(stack@) =~= stack_model(s0).push(
                            stack@.last().model(),
                        ));
                    }
                }
            } else {
                proof {
                    assert(is_blank(section@.take(0)));
                }
            }
            let ghost st1 = state_model(stack@, out@);
            let tagpart = section.substring_char(i, n);
            proof {
                assert(tagpart@ =~= section@.skip(i as int));
            }
            match classify_tag(tagpart) {
                Ok(t) => {
                    apply_tag(t, stack, out);
                    Ok(())
                },
                Err(e) => Err(e),
            }
        },
    }
}

/// Parse a whole document into its ordered top-level nodes.
///
/// The result is exactly what the ghost [`spec_parse`] names for the view of
/// `input`: `Ok` with the assembled forest when every tag carries its
/// delimiters, and `Err`, naming the missing delimiter, otherwise.
pub fn parse(input: &str) -> (r: Result<Vec<XMLElement>, ParseError>)
    ensures
        match r {
            Ok(nodes) => spec_parse(input@) == Ok::<Seq<NodeV>, ErrV>(models(nodes@)),
            Err(e) => spec_parse(input@) == Err::<Seq<NodeV>, ErrV>(e.model()),
        },
{
    let n = input.unicode_len();
    let mut pos: usize = 0;
    let mut stack: Vec<StackItem> = Vec::new();
    let mut out: Vec<XMLElement> = Vec::new();
    proof {
        assert(stack_model(stack@) =~= Seq::<ItemV>::empty());
        assert(models(out@) =~= Seq::<NodeV>::empty());
        assert(state_model(stack@, out@) == init_state());
        assert(input@.skip(0) =~= input@);
    }
    while pos < n
        invariant
            n == input@.len(),
            pos <= n,
            run_sections(state_model(stack@, out@), split_sections(input@.skip(pos as int)))
                == run_sections(init_state(), split_sections(input@)),
        decreases n - pos,
    {
        let rest = input.substring_char(pos, n);
        proof {
            assert(rest@ =~= input@.skip(pos as int));
        }
        let len_here = rest.unicode_len();
        let end: usize;
        if has_cdata_prefix(rest) {
            end = match find_triple_first(rest, ']', ']', '>') {
                Some(i) => i + 3,
                None => len_here,
            };
            proof {
                match find_triple(rest@, ']', ']', '>') {
                    Some(i) => {
                        assert(split_sections(rest@) == seq![rest@.take(end as int)]
                            + split_sections(rest@.skip(end as int)));
                    },
                    None => {
                        assert(split_sections(rest@) == seq![rest@]);
                        assert(rest@.take(end as int) =~= rest@);
                        assert(rest@.skip(end as int).len() == 0);
                        assert(split_sections(rest@.skip(end as int)) =~= Seq::<
                            Seq<char>,
                        >::empty());
                        assert(seq![rest@.take(end as int)] + split_sections(
                            rest@.skip(end as int),
                        ) =~= seq![rest@]);
                    },
                }
            }
        } else {
            end = match find_first(rest, '>') {
                Some(i) => i + 1,
                None => len_here,
            };
            proof {
                match find_char(rest@, '>') {
                    Some(i) => {
                        assert(split_sections(rest@) == seq![rest@.take(end as int)]
                            + split_sections(rest@.skip(end as int)));
                    },
                    None => {
                        assert(split_sections(rest@) == seq![rest@]);
                        assert(rest@.take(end as int) =~= rest@);
                        assert(rest@.skip(end as int).len() == 0);
                        assert(split_sections(rest@.skip(end as int)) =~= Seq::<
                            Seq<char>,
                        >::empty());
                        assert(seq![rest@.take(end as int)] + split_sections(
                            rest@.skip(end as int),
                        ) =~= seq![rest@]);
                    },
                }
            }
        }
        proof {
            assert(split_sections(rest@) == seq![rest@.take(end as int)] + split_sections(
                rest@.skip(end as int),
            ));
        }
        let section = rest.substring_char(0, end);
        let ghost tail = split_sections(rest@.skip(end as int));
        proof {
            assert(section@ =~= rest@.take(end as int));
            assert(seq![section@] + tail =~= seq![rest@.take(end as int)] + tail);
            lemma_run_cons(state_model(stack@, out@), section@, tail);
        }
        let ghost st_before = state_model(stack@, out@);
        match handle_section(section, &mut stack, &mut out) {
            Ok(u) => {},
            Err(e) => {
                proof {
                    assert(run_sections(st_before, seq![section@] + tail) == Err::<StateV, ErrV>(
                        e.model(),
                    ));
                }
                return Err(e);
            },
        }
        pos = pos + end;
        proof {
            assert(input@.skip(pos as int) =~= rest@.skip(end as int));
        }
    }
    proof {
        assert(input@.skip(pos as int).len() == 0);
        assert(split_sections(input@.skip(pos as int)) =~= Seq::<Seq<char>>::empty());
    }
    let ghost s1 = stack@;
    let ghost out1 = out@;
    let total = stack.len();
    let mut k: usize = 0;
    proof {
        assert(stack_model(s1).take(0) =~= Seq::<ItemV>::empty());
        assert(models(out@) =~= models(out1) + drain(stack_model(s1).take(0)));
    }
    while stack.len() > 0
        invariant
            total == s1.len(),
            k <= total,
            k + stack@.len() == s1.len(),
            stack@ =~= s1.skip(k as int),
            models(out@) =~= models(out1) + drain(stack_model(s1).take(k as int)),
        decreases stack@.len(),
    {
        let ghost o0 = out@;
        let item = stack.remove(0);
        proof {
            assert(item == s1[k as int]);
            assert(stack@ =~= s1.skip(k as int + 1));
            assert(stack_model(s1).take(k as int + 1).drop_last() =~= stack_model(s1).take(
                k as int,
            ));
            assert(stack_model(s1).take(k as int + 1).last() == s1[k as int].model());
        }
        match item {
            StackItem::Node { node } => {
                match &node {
                    XMLElement::Element { .. } => {
                        proof {
                            lemma_models_push(o0, node);
                        }
                        out.push(node);
                        proof {
                            assert(models(out@) =~= (models(out1) + drain(
                                stack_model(s1).take(k as int),
                            )).push(node.model()));
                        }
                    },
                    _ => {},
                }
            },
            _ => {},
        }
        k = k + 1;
    }
    proof {
        assert(stack_model(s1).take(k as int) =~= stack_model(s1));
    }
    Ok(out)
}

} // verus!
