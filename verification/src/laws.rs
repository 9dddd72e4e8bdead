//! General properties of the parse, stated over the ghost model and proved
//! for every input they speak of.
use vstd::prelude::*;

use crate::ast::ErrV;
use crate::ast::NodeV;
use crate::engine::drain;
use crate::engine::init_state;
use crate::engine::place_node;
use crate::engine::reduce_end;
use crate::engine::run_sections;
use crate::engine::spec_parse;
use crate::engine::step_section;
use crate::engine::step_tag;
use crate::engine::lemma_run_cons;
use crate::engine::ItemV;
use crate::engine::StateV;
use crate::grammar::attr_pair;
use crate::grammar::attrs_of_pieces;
use crate::grammar::classify;
use crate::grammar::comment_close;
use crate::grammar::comment_mark;
use crate::grammar::decl_close;
use crate::grammar::decl_open;
use crate::grammar::end_open;
use crate::grammar::name_attrs;
use crate::grammar::self_close;
use crate::grammar::strip_quote;
use crate::grammar::tag_open;
use crate::grammar::tag_close;
use crate::grammar::TagV;
use crate::model::cdata_close;
use crate::model::cdata_open;
use crate::model::find_char;
use crate::model::has_prefix;
use crate::model::has_suffix;
use crate::model::is_blank;
use crate::model::lemma_find_char;
use crate::model::lemma_find_char_is;
use crate::model::lemma_find_char_none;
use crate::model::find_triple;
use crate::model::lemma_find_triple;
use crate::model::lemma_find_triple_is;
use crate::model::split_on;
use crate::model::split_pair;
use crate::model::split_sections;

verus! {

/// The slicer's contract: concatenating the sections reproduces the input,
/// no section is empty, and every section but possibly the last ends with
/// `>`.
pub proof fn lemma_sections_reassemble(s: Seq<char>)
    ensures
        split_sections(s).flatten() == s,
        forall|k: int| 0 <= k < split_sections(s).len() ==> #[trigger] split_sections(
            s,
        )[k].len() > 0,
        forall|k: int|
            0 <= k < split_sections(s).len() - 1 ==> (#[trigger] split_sections(s)[k]).last()
                == '>',
    decreases s.len(),
{
    let ss = split_sections(s);
    if s.len() == 0 {
        assert(ss.flatten() =~= s);
    } else if has_prefix(s, cdata_open()) {
        lemma_find_triple(s, ']', ']', '>');
        match find_triple(s, ']', ']', '>') {
            None => {
                assert(ss == seq![s]);
                assert(ss.first() == s);
                assert(ss.drop_first() =~= Seq::<Seq<char>>::empty());
                assert(ss.drop_first().flatten() =~= Seq::<char>::empty());
                assert(ss.flatten() == s + ss.drop_first().flatten());
                assert(s + Seq::<char>::empty() =~= s);
            },
            Some(i) => {
                let a = s.take(i + 3);
                let rest = split_sections(s.skip(i + 3));
                lemma_sections_reassemble(s.skip(i + 3));
                assert(ss.first() == a);
                assert(ss.drop_first() =~= rest);
                assert(ss.flatten() == a + rest.flatten());
                assert(a + s.skip(i + 3) =~= s);
                assert(a.last() == s[i + 2]);
                assert(forall|k: int| 1 <= k < ss.len() ==> ss[k] == rest[k - 1]);
            },
        }
    } else {
        lemma_find_char(s, '>');
        match find_char(s, '>') {
            None => {
                assert(ss == seq![s]);
                assert(ss.first() == s);
                assert(ss.drop_first() =~= Seq::<Seq<char>>::empty());
                assert(ss.drop_first().flatten() =~= Seq::<char>::empty());
                assert(ss.flatten() == s + ss.drop_first().flatten());
                assert(s + Seq::<char>::empty() =~= s);
            },
            Some(i) => {
                let a = s.take(i + 1);
                let rest = split_sections(s.skip(i + 1));
                lemma_sections_reassemble(s.skip(i + 1));
                assert(ss.first() == a);
                assert(ss.drop_first() =~= rest);
                assert(ss.flatten() == a + rest.flatten());
                assert(a + s.skip(i + 1) =~= s);
                assert(a.last() == s[i]);
                assert(forall|k: int| 1 <= k < ss.len() ==> ss[k] == rest[k - 1]);
            },
        }
    }
}

/// A document whose one cut lies at its end — other than a CDATA block —
/// is one single section.
proof fn lemma_single_section(t: Seq<char>)
    requires
        t.len() > 0,
        !has_prefix(t, cdata_open()),
        t[t.len() - 1] == '>',
        forall|j: int| 0 <= j < t.len() - 1 ==> t[j] != '>',
    ensures
        split_sections(t) == seq![t],
{
    lemma_find_char_is(t, '>', t.len() - 1);
    assert(t.take(t.len() as int) =~= t);
    assert(t.skip(t.len() as int).len() == 0);
    assert(split_sections(t.skip(t.len() as int)) =~= Seq::<Seq<char>>::empty());
    assert(seq![t.take(t.len() as int)] + split_sections(t.skip(t.len() as int)) =~= seq![t]);
}

/// The parse of a document that is one single section is the one classified
/// tag applied to the empty state.
proof fn lemma_parse_single_tag(t: Seq<char>)
    requires
        t.len() > 0,
        t[0] == '<',
        split_sections(t) == seq![t],
    ensures
        spec_parse(t) == match classify(t) {
            Ok(tag) => {
                let st = step_tag(init_state(), tag);
                Ok::<Seq<NodeV>, ErrV>(st.out + drain(st.stack))
            },
            Err(e) => Err::<Seq<NodeV>, ErrV>(e),
        },
{
    lemma_find_char_is(t, '<', 0);
    assert(is_blank(t.take(0)));
    assert(t.skip(0) =~= t);
    lemma_run_cons(init_state(), t, Seq::<Seq<char>>::empty());
    assert(seq![t] + Seq::<Seq<char>>::empty() =~= seq![t]);
    match classify(t) {
        Ok(tag) => {
            let st = step_tag(init_state(), tag);
            assert(run_sections(init_state(), split_sections(t)) == Ok::<StateV, ErrV>(st));
        },
        Err(e) => {},
    }
}

/// Nothing of the six tag kinds matches a declaration, comment or CDATA
/// opener when the character after `<` is neither `?` nor `!`.
proof fn lemma_plain_tag_dispatch(t: Seq<char>)
    requires
        t.len() >= 2,
        t[0] == '<',
        t[1] != '?',
        t[1] != '!',
    ensures
        !has_prefix(t, decl_open()),
        !has_prefix(t, comment_mark()),
        !has_prefix(t, cdata_open()),
{
    if has_prefix(t, decl_open()) {
        assert(t.take(2)[1] == t[1]);
    }
    if has_prefix(t, comment_mark()) {
        assert(t.take(4)[1] == t[1]);
    }
    if has_prefix(t, cdata_open()) {
        assert(t.take(9)[1] == t[1]);
    }
}

/// A self-closing tag of a bare name parses to one top-level empty element
/// with that name and no attributes, whatever the name, so the self-closing
/// form and any other writing of an attribute-free empty element agree.
pub proof fn lemma_self_closing_is_empty_element(name: Seq<char>)
    requires
        name.len() > 0,
        forall|j: int| 0 <= j < name.len() ==> name[j] != '>' && name[j] != ' ',
        name[0] != '?',
        name[0] != '!',
    ensures
        spec_parse(seq!['<'] + name + seq!['/', '>']) == Ok::<Seq<NodeV>, ErrV>(
            seq![NodeV::EmptyElement { name: name, attributes: Map::empty() }],
        ),
{
    let t = seq!['<'] + name + seq!['/', '>'];
    assert(t[0] == '<');
    assert(t[1] == name[0]);
    assert(t[t.len() - 1] == '>');
    assert(t[t.len() - 2] == '/');
    assert(forall|j: int| 1 <= j < t.len() - 2 ==> t[j] == name[j - 1]);
    lemma_plain_tag_dispatch(t);
    lemma_single_section(t);
    lemma_parse_single_tag(t);
    assert(has_suffix(t, self_close())) by {
        assert(t.skip(t.len() - 2) =~= self_close());
    }
    assert(has_prefix(t, tag_open())) by {
        assert(t.take(1) =~= tag_open());
    }
    let body = t.subrange(1, t.len() - 2);
    assert(body =~= name);
    lemma_find_char_none(name, ' ');
    assert(name_attrs(name) == Ok::<(Seq<char>, Map<Seq<char>, Seq<Seq<char>>>), ErrV>(
        (name, Map::empty()),
    ));
    assert(classify(t) == Ok::<TagV, ErrV>(
        TagV::SelfClose { name: name, attributes: Map::empty() },
    ));
    let st = step_tag(init_state(), TagV::SelfClose { name: name, attributes: Map::empty() });
    assert(st.out + drain(st.stack) =~= seq![
        NodeV::EmptyElement { name: name, attributes: Map::empty() },
    ]);
}

/// A document of exactly two `>`-terminated runs, neither opening a CDATA
/// block, splits into two sections.
proof fn lemma_two_sections(a: Seq<char>, b: Seq<char>)
    requires
        a.len() > 0,
        a[a.len() - 1] == '>',
        forall|j: int| 0 <= j < a.len() - 1 ==> a[j] != '>',
        !has_prefix(a, cdata_open()),
        b.len() > 0,
        b[b.len() - 1] == '>',
        forall|j: int| 0 <= j < b.len() - 1 ==> b[j] != '>',
        !has_prefix(b, cdata_open()),
    ensures
        split_sections(a + b) == seq![a, b],
{
    let t = a + b;
    assert(forall|j: int| 0 <= j < a.len() ==> t[j] == a[j]);
    assert(forall|j: int| a.len() <= j < t.len() ==> t[j] == b[j - a.len()]);
    assert(!has_prefix(t, cdata_open())) by {
        if has_prefix(t, cdata_open()) {
            assert(forall|k: int| 0 <= k < 9 ==> #[trigger] t.take(9)[k] == t[k]);
            if a.len() >= 9 {
                assert(a.take(9) =~= t.take(9));
            } else {
                assert(t[a.len() - 1] == '>');
                assert(forall|k: int| 0 <= k < 9 ==> cdata_open()[k] != '>');
            }
        }
    }
    lemma_find_char_is(t, '>', a.len() - 1);
    assert(t.take(a.len() as int) =~= a);
    assert(t.skip(a.len() as int) =~= b);
    lemma_single_section(b);
    assert(seq![a] + seq![b] =~= seq![a, b]);
}

/// A well-formed single-element document `<name>text</name>` parses to one
/// top-level `Element` of that name, with the text as its one content run,
/// no attributes and no children.
#[verifier::rlimit(50)]
pub proof fn lemma_single_element_document(name: Seq<char>, text: Seq<char>)
    requires
        name.len() > 0,
        forall|j: int|
            0 <= j < name.len() ==> name[j] != '>' && name[j] != ' ' && name[j] != '<',
        name[0] != '?',
        name[0] != '!',
        name[0] != '/',
        name[name.len() - 1] != '/',
        forall|j: int| 0 <= j < text.len() ==> text[j] != '>' && text[j] != '<',
        !is_blank(text),
    ensures
        spec_parse(seq!['<'] + name + seq!['>'] + text + seq!['<', '/'] + name + seq!['>'])
            == Ok::<Seq<NodeV>, ErrV>(
            seq![
                NodeV::Element {
                    name: name,
                    attributes: Map::empty(),
                    contents: seq![text],
                    children: seq![],
                },
            ],
        ),
{
    let a = seq!['<'] + name + seq!['>'];
    let b = text + seq!['<', '/'] + name + seq!['>'];
    let e = seq!['<', '/'] + name + seq!['>'];
    let t = seq!['<'] + name + seq!['>'] + text + seq!['<', '/'] + name + seq!['>'];
    assert(t =~= a + b);
    assert(a[0] == '<');
    assert(a[1] == name[0]);
    assert(a[a.len() - 1] == '>');
    assert(forall|j: int| 1 <= j < a.len() - 1 ==> a[j] == name[j - 1]);
    assert(forall|j: int| 0 <= j < text.len() ==> b[j] == text[j]);
    assert(b[text.len() as int] == '<');
    assert(b[text.len() as int + 1] == '/');
    assert(forall|j: int| 0 <= j < e.len() ==> b[text.len() + j] == e[j]);
    assert(b[b.len() - 1] == '>');
    assert(text.len() > 0);
    assert(!has_prefix(a, cdata_open())) by {
        if has_prefix(a, cdata_open()) {
            assert(a.take(9)[1] == a[1]);
        }
    }
    assert(!has_prefix(b, cdata_open())) by {
        if has_prefix(b, cdata_open()) {
            assert(b.take(9)[0] == b[0]);
        }
    }
    lemma_two_sections(a, b);
    assert(split_sections(a + b) == seq![a, b]);

    // The first section is a bare start tag.
    lemma_plain_tag_dispatch(a);
    assert(!has_suffix(a, self_close())) by {
        if has_suffix(a, self_close()) {
            assert(a.skip(a.len() - 2)[0] == a[a.len() - 2]);
            assert(a[a.len() - 2] == name[name.len() - 1]);
        }
    }
    assert(!has_prefix(a, end_open())) by {
        if has_prefix(a, end_open()) {
            assert(a.take(2)[1] == a[1]);
        }
    }
    assert(has_prefix(a, tag_open())) by {
        assert(a.take(1) =~= tag_open());
    }
    assert(has_suffix(a, tag_close())) by {
        assert(a.skip(a.len() - 1) =~= tag_close());
    }
    assert(a.subrange(1, a.len() - 1) =~= name);
    lemma_find_char_none(name, ' ');
    assert(classify(a) == Ok::<TagV, ErrV>(
        TagV::Start { name: name, attributes: Map::empty() },
    ));

    // The second section is the text run and the end tag.
    lemma_find_char_is(b, '<', text.len() as int);
    assert(b.take(text.len() as int) =~= text);
    assert(b.skip(text.len() as int) =~= e);
    assert(e[1] == '/');
    assert(e[e.len() - 1] == '>');
    assert(forall|j: int| 2 <= j < e.len() - 1 ==> e[j] == name[j - 2]);
    lemma_plain_tag_dispatch(e);
    assert(!has_suffix(e, self_close())) by {
        if has_suffix(e, self_close()) {
            assert(e.skip(e.len() - 2)[0] == e[e.len() - 2]);
            assert(e[e.len() - 2] == name[name.len() - 1]);
        }
    }
    assert(has_prefix(e, end_open())) by {
        assert(e.take(2) =~= end_open());
    }
    assert(has_suffix(e, tag_close())) by {
        assert(e.skip(e.len() - 1) =~= tag_close());
    }
    assert(e.subrange(2, e.len() - 1) =~= name);
    assert(classify(e) == Ok::<TagV, ErrV>(TagV::End { name: name }));

    // Run the assembler over the two sections.
    lemma_run_cons(init_state(), a, seq![b]);
    assert(seq![a] + seq![b] =~= seq![a, b]);
    lemma_find_char_is(a, '<', 0);
    assert(is_blank(a.take(0)));
    assert(a.skip(0) =~= a);
    let st1 = step_tag(init_state(), TagV::Start { name: name, attributes: Map::empty() });
    assert(st1.stack =~= seq![ItemV::Open { name: name, attributes: Map::empty() }]);
    assert(step_section(init_state(), a) == Ok::<StateV, ErrV>(st1));

    lemma_run_cons(st1, b, Seq::<Seq<char>>::empty());
    assert(seq![b] + Seq::<Seq<char>>::empty() =~= seq![b]);
    let st2 = StateV { stack: st1.stack.push(ItemV::Text { text: text }), ..st1 };
    assert(st2.stack =~= seq![
        ItemV::Open { name: name, attributes: Map::empty() },
        ItemV::Text { text: text },
    ]);
    let elem = NodeV::Element {
        name: name,
        attributes: Map::empty(),
        contents: seq![text],
        children: seq![],
    };
    let red = reduce_end(st2.stack, name, seq![], seq![]);
    let inner = seq![ItemV::Open { name: name, attributes: Map::empty() }];
    assert(st2.stack.drop_last() =~= inner);
    assert(st2.stack.last() == (ItemV::Text { text: text }));
    let r1 = reduce_end(inner, name, seq![text] + seq![], seq![]);
    assert(red == r1);
    assert(inner.last() == (ItemV::Open { name: name, attributes: Map::empty() }));
    assert(inner.drop_last() =~= Seq::<ItemV>::empty());
    assert(r1 == inner.drop_last().push(
        ItemV::Node {
            node: NodeV::Element {
                name: name,
                attributes: Map::empty(),
                contents: seq![text] + seq![],
                children: seq![],
            },
        },
    ));
    assert(red =~~= seq![ItemV::Node { node: elem }]);
    let st3 = step_tag(st2, TagV::End { name: name });
    assert(step_section(st1, b) == Ok::<StateV, ErrV>(st3));
    assert(run_sections(init_state(), seq![a, b]) == Ok::<StateV, ErrV>(st3));

    // Drain the one finished element.
    assert(st3.stack == seq![ItemV::Node { node: elem }]);
    assert(st3.stack.last() == (ItemV::Node { node: elem }));
    assert(st3.stack.drop_last().len() == 0);
    assert(drain(st3.stack.drop_last()) =~= Seq::<NodeV>::empty());
    assert(elem is Element);
    assert(drain(st3.stack) =~= Seq::<NodeV>::empty().push(elem));
    assert(drain(st3.stack) =~= seq![elem]);
    assert(st3.out + drain(st3.stack) =~= seq![elem]);
}

/// CDATA is kept verbatim: a document that is one CDATA block parses to one
/// `Cdata` node holding exactly the inner text, byte for byte, markup-like
/// text such as `<x>` included — for every inner text that does not itself
/// contain the closing `]]>`.
pub proof fn lemma_cdata_verbatim(text: Seq<char>)
    requires
        forall|j: int|
            0 <= j && j + 2 < text.len() ==> !(#[trigger] text[j] == ']' && text[j + 1] == ']'
                && text[j + 2] == '>'),
    ensures
        spec_parse(cdata_open() + text + cdata_close()) == Ok::<Seq<NodeV>, ErrV>(
            seq![NodeV::Cdata { text: text }],
        ),
{
    let t = cdata_open() + text + cdata_close();
    let n = text.len() as int;
    assert(t.len() == n + 12);
    assert(forall|j: int| 0 <= j < 9 ==> t[j] == cdata_open()[j]);
    assert(forall|j: int| 9 <= j < 9 + n ==> #[trigger] t[j] == text[j - 9]);
    assert(forall|j: int| 9 + n <= j < t.len() ==> #[trigger] t[j] == cdata_close()[j - 9 - n]);
    assert(has_prefix(t, cdata_open())) by {
        assert(t.take(9) =~= cdata_open());
    }

    // The first `]]>` of the document is the closer itself, so the whole
    // block is one section.
    assert(t[9 + n] == ']');
    assert(t[9 + n + 1] == ']');
    assert(t[9 + n + 2] == '>');
    assert forall|j: int| 0 <= j < 9 + n implies !(#[trigger] t[j] == ']' && t[j + 1] == ']'
        && t[j + 2] == '>') by {
        if j < 9 {
            assert(t[j] == cdata_open()[j]);
            assert(forall|k: int| 0 <= k < 9 ==> cdata_open()[k] != ']');
        } else if j + 2 < 9 + n {
            assert(t[j] == text[j - 9]);
            assert(t[j + 1] == text[j - 9 + 1]);
            assert(t[j + 2] == text[j - 9 + 2]);
        } else if j == 9 + n - 2 {
            assert(t[j + 2] == ']');
        } else {
            assert(t[j + 2] == ']');
        }
    }
    lemma_find_triple_is(t, ']', ']', '>', 9 + n);
    assert(t.take(9 + n + 3) =~= t);
    assert(t.skip(9 + n + 3).len() == 0);
    assert(split_sections(t.skip(9 + n + 3)) =~= Seq::<Seq<char>>::empty());
    assert(seq![t.take(9 + n + 3)] + split_sections(t.skip(9 + n + 3)) =~= seq![t]);
    assert(split_sections(t) == seq![t]);

    // Classification keeps the inner text verbatim.
    assert(t[0] == '<');
    assert(t[1] == '!');
    assert(t[2] == '[');
    lemma_parse_single_tag(t);
    if has_prefix(t, decl_open()) {
        assert(t.take(2)[1] == t[1]);
    }
    if has_prefix(t, comment_mark()) {
        assert(t.take(4)[2] == t[2]);
    }
    assert(has_suffix(t, cdata_close())) by {
        assert(t.skip(t.len() - 3) =~= cdata_close());
    }
    assert(t.subrange(9, t.len() - 3) =~= text);
    assert(classify(t) == Ok::<TagV, ErrV>(TagV::Cdata { text: text }));
    let st = step_tag(init_state(), TagV::Cdata { text: text });
    assert(st.out + drain(st.stack) =~= seq![NodeV::Cdata { text: text }]);
}

/// Attribute round-trip, for one attribute: a tag body written as
/// `name key="value"` decomposes into that name and the mapping of that key
/// to the space-separated tokens of that value — for every name without a
/// space, every key free of `=` and `"`, and every value free of `"` that
/// does not begin with a space.
pub proof fn lemma_one_attribute_decomposes(name: Seq<char>, key: Seq<char>, value: Seq<char>)
    requires
        forall|j: int| 0 <= j < name.len() ==> name[j] != ' ',
        key.len() > 0,
        forall|j: int| 0 <= j < key.len() ==> key[j] != '=' && key[j] != '"',
        forall|j: int| 0 <= j < value.len() ==> value[j] != '"',
        value.len() == 0 || value[0] != ' ',
    ensures
        name_attrs(name + seq![' '] + key + seq!['=', '"'] + value + seq!['"']) == Ok::<
            (Seq<char>, Map<Seq<char>, Seq<Seq<char>>>),
            ErrV,
        >((name, Map::empty().insert(key, split_on(value, ' ')))),
{
    let body = name + seq![' '] + key + seq!['=', '"'] + value + seq!['"'];
    let rest = key + seq!['=', '"'] + value + seq!['"'];
    assert(forall|j: int| 0 <= j < name.len() ==> body[j] == name[j]);
    assert(body[name.len() as int] == ' ');
    lemma_find_char_is(body, ' ', name.len() as int);
    assert(body.take(name.len() as int) =~= name);
    assert(body.skip(name.len() as int + 1) =~= rest);

    // The attribute list is one piece: no quote is followed by a space.
    assert(forall|j: int| 0 <= j < key.len() ==> rest[j] == key[j]);
    assert(rest[key.len() as int] == '=');
    assert(rest[key.len() as int + 1] == '"');
    assert(forall|j: int|
        0 <= j < value.len() ==> rest[key.len() + 2 + j] == value[j]);
    assert(rest[rest.len() - 1] == '"');
    assert(forall|j: int| 0 <= j && j + 1 < rest.len() ==> !(#[trigger] rest[j] == '"' && rest[j
        + 1] == ' ')) by {
        assert forall|j: int|
            0 <= j && j + 1 < rest.len() && #[trigger] rest[j] == '"' implies rest[j + 1]
            != ' ' by {
            assert(j == key.len() + 1);
            if value.len() > 0 {
                assert(rest[j + 1] == value[0]);
            } else {
                assert(rest[j + 1] == '"');
            }
        }
    }
    crate::model::lemma_find_pair_none(rest, '"', ' ');
    let pieces = split_pair(rest, '"', ' ');
    assert(pieces == seq![rest]);

    // The one piece splits on its first `="` into the key and the value.
    assert(forall|j: int| 0 <= j < key.len() ==> !(#[trigger] rest[j] == '=' && rest[j + 1]
        == '"'));
    crate::model::lemma_find_pair_is(rest, '=', '"', key.len() as int);
    assert(rest.take(key.len() as int) =~= key);
    let vtext = rest.skip(key.len() as int + 2);
    assert(vtext =~= value + seq!['"']);
    assert(vtext.last() == '"');
    assert(strip_quote(vtext) =~= value);
    assert(attr_pair(rest) == Ok::<(Seq<char>, Seq<Seq<char>>), ErrV>(
        (key, split_on(value, ' ')),
    ));
    assert(pieces.drop_last() =~= Seq::<Seq<char>>::empty());
    assert(pieces.last() == rest);
    assert(pieces.drop_last().len() == 0);
    assert(attrs_of_pieces(pieces.drop_last()) == Ok::<Map<Seq<char>, Seq<Seq<char>>>, ErrV>(
        Map::empty(),
    ));
    assert(attrs_of_pieces(pieces) == Ok::<Map<Seq<char>, Seq<Seq<char>>>, ErrV>(
        Map::empty().insert(key, split_on(value, ' ')),
    ));
}

/// A tag section with no `>` at all fails classification: each of the six
/// kinds demands a closer that ends in `>`.
proof fn lemma_classify_unclosed(t: Seq<char>)
    requires
        t.len() > 0,
        t[0] == '<',
        forall|j: int| 0 <= j < t.len() ==> t[j] != '>',
    ensures
        classify(t) is Err,
{
    if has_suffix(t, decl_close()) {
        assert(t.skip(t.len() - 2)[1] == t[t.len() - 1]);
    }
    if has_suffix(t, comment_close()) {
        assert(t.skip(t.len() - 4)[3] == t[t.len() - 1]);
    }
    if has_suffix(t, cdata_close()) {
        assert(t.skip(t.len() - 3)[2] == t[t.len() - 1]);
    }
    if has_suffix(t, self_close()) {
        assert(t.skip(t.len() - 2)[1] == t[t.len() - 1]);
    }
    if has_suffix(t, tag_close()) {
        assert(t.skip(t.len() - 1)[0] == t[t.len() - 1]);
    }
}

/// Running the assembler over a document whose tail opens a tag that no `>`
/// ever closes fails, whatever state it starts from.
#[verifier::rlimit(100)]
proof fn lemma_run_unclosed(st: StateV, s: Seq<char>, i: int)
    requires
        0 <= i < s.len(),
        s[i] == '<',
        forall|j: int| i <= j < s.len() ==> s[j] != '>',
    ensures
        run_sections(st, split_sections(s)) is Err,
    decreases s.len(),
{
    if has_prefix(s, cdata_open()) {
        assert(forall|k: int| 0 <= k < 9 ==> #[trigger] s.take(9)[k] == s[k]);
        lemma_find_triple(s, ']', ']', '>');
        match find_triple(s, ']', ']', '>') {
            None => {
                assert(s.take(s.len() as int) =~= s);
                assert(split_sections(s) == seq![s]);
                assert(s[0] == '<');
                assert(s[1] == '!');
                assert(s[2] == '[');
                lemma_find_char_is(s, '<', 0);
                assert(is_blank(s.take(0)));
                assert(s.skip(0) =~= s);
                if has_prefix(s, decl_open()) {
                    assert(s.take(2)[1] == s[1]);
                }
                if has_prefix(s, comment_mark()) {
                    assert(s.take(4)[2] == s[2]);
                }
                if s.len() >= 12 && has_suffix(s, cdata_close()) {
                    assert(s.skip(s.len() - 3)[0] == s[s.len() - 3]);
                    assert(s.skip(s.len() - 3)[1] == s[s.len() - 2]);
                    assert(s.skip(s.len() - 3)[2] == s[s.len() - 1]);
                    assert(false);
                }
                assert(classify(s) is Err);
                assert(step_section(st, s) is Err);
                assert(split_sections(s)[0] == s);
            },
            Some(k) => {
                assert(k + 2 < i) by {
                    if k + 2 >= i {
                        assert(s[k + 2] != '>');
                    }
                }
                let a = s.take(k + 3);
                let s2 = s.skip(k + 3);
                assert(split_sections(s) == seq![a] + split_sections(s2));
                lemma_run_cons(st, a, split_sections(s2));
                match step_section(st, a) {
                    Ok(st1) => {
                        assert(s2[i - k - 3] == s[i]);
                        assert(forall|j: int|
                            0 <= j < s2.len() ==> #[trigger] s2[j] == s[j + k + 3]);
                        lemma_run_unclosed(st1, s2, i - k - 3);
                    },
                    Err(e) => {},
                }
            },
        }
    } else {
        lemma_find_char(s, '>');
        match find_char(s, '>') {
            None => {
                assert(s.take(s.len() as int) =~= s);
                assert(split_sections(s) == seq![s]);
                lemma_find_char(s, '<');
                match find_char(s, '<') {
                    None => {
                        assert(s[i] != '<');
                    },
                    Some(i0) => {
                        let t = s.skip(i0);
                        assert(t[0] == s[i0]);
                        assert(forall|j: int| 0 <= j < t.len() ==> t[j] == s[i0 + j]);
                        lemma_classify_unclosed(t);
                        assert(step_section(st, s) is Err);
                        assert(split_sections(s)[0] == s);
                    },
                }
            },
            Some(k) => {
                assert(k < i) by {
                    if k >= i {
                        assert(s[k] != '>');
                    }
                }
                let a = s.take(k + 1);
                let s2 = s.skip(k + 1);
                assert(split_sections(s) == seq![a] + split_sections(s2));
                lemma_run_cons(st, a, split_sections(s2));
                match step_section(st, a) {
                    Ok(st1) => {
                        assert(s2[i - k - 1] == s[i]);
                        assert(forall|j: int|
                            0 <= j < s2.len() ==> #[trigger] s2[j] == s[j + k + 1]);
                        lemma_run_unclosed(st1, s2, i - k - 1);
                    },
                    Err(e) => {},
                }
            },
        }
    }
}

/// A tag opened by some `<` after the last `>` of the document — a tag whose
/// closing `>` is missing — makes the whole parse fail; no silently
/// truncated tree is returned.
pub proof fn lemma_missing_close_is_fatal(input: Seq<char>, i: int)
    requires
        0 <= i < input.len(),
        input[i] == '<',
        forall|j: int| i <= j < input.len() ==> input[j] != '>',
    ensures
        spec_parse(input) is Err,
{
    lemma_run_unclosed(init_state(), input, i);
}

/// Every direct content run of the node, and of every node below it, is
/// other than blank.
pub open spec fn node_contents_nonblank(n: NodeV) -> bool
    decreases n,
{
    match n {
        NodeV::Element { contents, children, .. } => (forall|i: int|
            0 <= i < contents.len() ==> !is_blank(#[trigger] contents[i]))
            && nodes_contents_nonblank(children),
        _ => true,
    }
}

pub open spec fn nodes_contents_nonblank(ns: Seq<NodeV>) -> bool
    decreases ns,
{
    if ns.len() == 0 {
        true
    } else {
        nodes_contents_nonblank(ns.drop_last()) && node_contents_nonblank(ns.last())
    }
}

proof fn lemma_nodes_nonblank_pointwise(ns: Seq<NodeV>)
    ensures
        nodes_contents_nonblank(ns) <==> (forall|i: int|
            0 <= i < ns.len() ==> node_contents_nonblank(#[trigger] ns[i])),
    decreases ns,
{
    if ns.len() > 0 {
        lemma_nodes_nonblank_pointwise(ns.drop_last());
        assert(forall|i: int| 0 <= i < ns.len() - 1 ==> ns.drop_last()[i] == ns[i]);
        if nodes_contents_nonblank(ns.drop_last()) && node_contents_nonblank(ns.last()) {
            assert(forall|i: int|
                0 <= i < ns.len() ==> node_contents_nonblank(#[trigger] ns[i])) by {
                assert(forall|i: int|
                    0 <= i < ns.len() - 1 ==> node_contents_nonblank(#[trigger] ns[i]));
            }
        }
    }
}

/// No blank text run, and no finished node with a blank content run, sits on
/// the stack.
spec fn item_tidy(it: ItemV) -> bool {
    match it {
        ItemV::Node { node } => node_contents_nonblank(node),
        ItemV::Text { text } => !is_blank(text),
        ItemV::Open { .. } => true,
    }
}

spec fn stack_tidy(s: Seq<ItemV>) -> bool {
    forall|i: int| 0 <= i < s.len() ==> item_tidy(#[trigger] s[i])
}

spec fn state_tidy(st: StateV) -> bool {
    stack_tidy(st.stack) && nodes_contents_nonblank(st.out)
}

proof fn lemma_reduce_tidy(
    stack: Seq<ItemV>,
    name: Seq<char>,
    contents: Seq<Seq<char>>,
    children: Seq<NodeV>,
)
    requires
        stack_tidy(stack),
        forall|i: int| 0 <= i < contents.len() ==> !is_blank(#[trigger] contents[i]),
        nodes_contents_nonblank(children),
    ensures
        stack_tidy(reduce_end(stack, name, contents, children)),
    decreases stack.len(),
{
    if stack.len() == 0 {
    } else {
        let rest = stack.drop_last();
        assert(forall|i: int| 0 <= i < rest.len() ==> rest[i] == stack[i]);
        match stack.last() {
            ItemV::Open { name: n, attributes } => {
                if n == name {
                    let node = NodeV::Element { name: n, attributes, contents, children };
                    assert(node_contents_nonblank(node));
                    let r = rest.push(ItemV::Node { node });
                    assert(forall|i: int| 0 <= i < r.len() ==> item_tidy(#[trigger] r[i]));
                } else {
                    lemma_reduce_tidy(rest, name, contents, children);
                }
            },
            ItemV::Node { node } => {
                assert(item_tidy(stack.last()));
                lemma_nodes_nonblank_pointwise(children);
                lemma_nodes_nonblank_pointwise(seq![node] + children);
                assert(forall|i: int|
                    0 <= i < (seq![node] + children).len() ==> node_contents_nonblank(
                        #[trigger] (seq![node] + children)[i],
                    )) by {
                    assert(forall|i: int|
                        1 <= i < (seq![node] + children).len() ==> (seq![node] + children)[i]
                            == children[i - 1]);
                }
                lemma_reduce_tidy(rest, name, contents, seq![node] + children);
            },
            ItemV::Text { text } => {
                assert(item_tidy(stack.last()));
                assert(forall|i: int|
                    1 <= i < (seq![text] + contents).len() ==> (seq![text] + contents)[i]
                        == contents[i - 1]);
                lemma_reduce_tidy(rest, name, seq![text] + contents, children);
            },
        }
    }
}

proof fn lemma_step_tag_tidy(st: StateV, t: TagV)
    requires
        state_tidy(st),
    ensures
        state_tidy(step_tag(st, t)),
{
    match t {
        TagV::Start { name, attributes } => {
            let r = st.stack.push(ItemV::Open { name, attributes });
            assert(forall|i: int| 0 <= i < r.len() ==> item_tidy(#[trigger] r[i]));
        },
        TagV::End { name } => {
            lemma_reduce_tidy(st.stack, name, seq![], seq![]);
        },
        TagV::Decl { name, attributes } => {
            lemma_place_tidy(st, NodeV::EmptyElement { name, attributes });
        },
        TagV::SelfClose { name, attributes } => {
            lemma_place_tidy(st, NodeV::EmptyElement { name, attributes });
        },
        TagV::Comment { text } => {
            lemma_place_tidy(st, NodeV::Comment { text });
        },
        TagV::Cdata { text } => {
            lemma_place_tidy(st, NodeV::Cdata { text });
        },
    }
}

proof fn lemma_place_tidy(st: StateV, node: NodeV)
    requires
        state_tidy(st),
        node_contents_nonblank(node),
    ensures
        state_tidy(place_node(st, node)),
{
    if st.stack.len() == 0 {
        assert(st.out.push(node).drop_last() =~= st.out);
    } else {
        let r = st.stack.push(ItemV::Node { node });
        assert(forall|i: int| 0 <= i < r.len() ==> item_tidy(#[trigger] r[i]));
    }
}

proof fn lemma_step_section_tidy(st: StateV, raw: Seq<char>)
    requires
        state_tidy(st),
    ensures
        match step_section(st, raw) {
            Ok(st1) => state_tidy(st1),
            Err(e) => true,
        },
{
    match find_char(raw, '<') {
        None => {
            if !is_blank(raw) {
                let r = st.stack.push(ItemV::Text { text: raw });
                assert(forall|i: int| 0 <= i < r.len() ==> item_tidy(#[trigger] r[i]));
            }
        },
        Some(i) => {
            let st1 = if is_blank(raw.take(i)) {
                st
            } else {
                StateV { stack: st.stack.push(ItemV::Text { text: raw.take(i) }), ..st }
            };
            assert(state_tidy(st1)) by {
                if !is_blank(raw.take(i)) {
                    let r = st.stack.push(ItemV::Text { text: raw.take(i) });
                    assert(forall|k: int| 0 <= k < r.len() ==> item_tidy(#[trigger] r[k]));
                }
            }
            match classify(raw.skip(i)) {
                Ok(t) => {
                    lemma_step_tag_tidy(st1, t);
                },
                Err(e) => {},
            }
        },
    }
}

proof fn lemma_run_tidy(st: StateV, sections: Seq<Seq<char>>)
    requires
        state_tidy(st),
    ensures
        match run_sections(st, sections) {
            Ok(st1) => state_tidy(st1),
            Err(e) => true,
        },
    decreases sections.len(),
{
    if sections.len() > 0 {
        lemma_step_section_tidy(st, sections[0]);
        match step_section(st, sections[0]) {
            Ok(st1) => {
                lemma_run_tidy(st1, sections.skip(1));
            },
            Err(e) => {},
        }
    }
}

proof fn lemma_drain_tidy(stack: Seq<ItemV>)
    requires
        stack_tidy(stack),
    ensures
        nodes_contents_nonblank(drain(stack)),
    decreases stack.len(),
{
    if stack.len() > 0 {
        let rest = stack.drop_last();
        assert(forall|i: int| 0 <= i < rest.len() ==> rest[i] == stack[i]);
        lemma_drain_tidy(rest);
        match stack.last() {
            ItemV::Node { node } => {
                if node is Element {
                    assert(item_tidy(stack.last()));
                    assert(drain(rest).push(node).drop_last() =~= drain(rest));
                }
            },
            _ => {},
        }
    }
}

/// Whitespace-only text between tags never reaches any `contents` sequence:
/// whenever the parse succeeds, no node of the forest, at any depth, holds a
/// blank content run.
pub proof fn lemma_blank_text_never_kept(input: Seq<char>, ns: Seq<NodeV>)
    requires
        spec_parse(input) == Ok::<Seq<NodeV>, ErrV>(ns),
    ensures
        nodes_contents_nonblank(ns),
{
    lemma_run_tidy(init_state(), split_sections(input));
    match run_sections(init_state(), split_sections(input)) {
        Ok(st) => {
            lemma_drain_tidy(st.stack);
            lemma_nodes_nonblank_pointwise(st.out);
            lemma_nodes_nonblank_pointwise(drain(st.stack));
            lemma_nodes_nonblank_pointwise(st.out + drain(st.stack));
            assert(forall|i: int|
                0 <= i < st.out.len() ==> (st.out + drain(st.stack))[i] == st.out[i]);
            assert(forall|i: int|
                st.out.len() <= i < (st.out + drain(st.stack)).len() ==> (st.out + drain(
                    st.stack,
                ))[i] == drain(st.stack)[i - st.out.len()]);
        },
        Err(e) => {},
    }
}

} // verus!
