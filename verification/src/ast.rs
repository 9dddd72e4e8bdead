//! The node tree that a parse produces, together with its ghost model.
//!
//! Every executable type here has a ghost counterpart over `Seq<char>`,
//! `Seq` and `Map`; the parser's contracts are stated over those models.
use vstd::prelude::*;

verus! {

/// Ghost model of an element's attributes: attribute name to the ordered
/// sequence of its whitespace-separated value tokens.
pub type AttrsV = Map<Seq<char>, Seq<Seq<char>>>;

/// Ghost model of a parsed node.
#[verifier::ext_equal]
pub enum NodeV {
    Element {
        name: Seq<char>,
        attributes: AttrsV,
        contents: Seq<Seq<char>>,
        children: Seq<NodeV>,
    },
    EmptyElement { name: Seq<char>, attributes: AttrsV },
    Comment { text: Seq<char> },
    Cdata { text: Seq<char> },
}

/// One attribute of an element: a name and its whitespace-separated value
/// tokens, in order.
#[derive(Debug, PartialEq, Eq)]
pub struct Attribute {
    pub name: String,
    pub values: Vec<String>,
}

/// A parsed node. `Element` carries the direct text runs (`contents`) and the
/// nested nodes (`children`) separately, each in document order.
#[derive(Debug, PartialEq, Eq)]
pub enum XMLElement {
    Element {
        name: String,
        attributes: Vec<Attribute>,
        contents: Vec<String>,
        children: Vec<XMLElement>,
    },
    EmptyElement { name: String, attributes: Vec<Attribute> },
    Comment { text: String },
    Cdata { text: String },
}

/// The parse failed: `expected` is the delimiter that was missing, and
/// `found` the piece of the document in which it was expected.
#[derive(Debug, PartialEq, Eq)]
pub struct ParseError {
    pub expected: String,
    pub found: String,
}

/// Ghost model of a parse failure.
#[verifier::ext_equal]
pub struct ErrV {
    pub expected: Seq<char>,
    pub found: Seq<char>,
}

impl ParseError {
    pub open spec fn model(self) -> ErrV {
        ErrV { expected: self.expected@, found: self.found@ }
    }
}

/// Ghost model of a sequence of value tokens.
pub open spec fn vals_model(s: Seq<String>) -> Seq<Seq<char>> {
    s.map_values(|v: String| v@)
}

/// Ghost model of an attribute list: later entries overwrite earlier ones of
/// the same name, as repeated insertions into a map would.
pub open spec fn attrs_model(s: Seq<Attribute>) -> AttrsV
    decreases s.len(),
{
    if s.len() == 0 {
        Map::empty()
    } else {
        attrs_model(s.drop_last()).insert(s.last().name@, vals_model(s.last().values@))
    }
}

/// No two attributes of the list share a name.
pub open spec fn attr_names_unique(s: Seq<Attribute>) -> bool {
    forall|i: int, j: int| 0 <= i < j < s.len() ==> s[i].name@ != s[j].name@
}

/// Overwriting the one attribute of a given name in place models the same
/// mapping as inserting that name anew.
pub proof fn lemma_attrs_model_update(s: Seq<Attribute>, i: int, a: Attribute)
    requires
        0 <= i < s.len(),
        s[i].name@ == a.name@,
        forall|j: int| 0 <= j < s.len() && j != i ==> s[j].name@ != a.name@,
    ensures
        attrs_model(s.update(i, a)) == attrs_model(s).insert(a.name@, vals_model(a.values@)),
    decreases s.len(),
{
    let su = s.update(i, a);
    let v = vals_model(a.values@);
    if i == s.len() - 1 {
        assert(su.drop_last() =~= s.drop_last());
        assert(su.last() == a);
        assert(attrs_model(s).insert(a.name@, v) =~= attrs_model(s.drop_last()).insert(
            a.name@,
            v,
        ));
    } else {
        assert(su.drop_last() =~= s.drop_last().update(i, a));
        assert(su.last() == s.last());
        lemma_attrs_model_update(s.drop_last(), i, a);
        assert(s.last().name@ != a.name@);
        let ln = s.last().name@;
        let lv = vals_model(s.last().values@);
        assert(attrs_model(s.drop_last()).insert(a.name@, v).insert(ln, lv)
            =~= attrs_model(s.drop_last()).insert(ln, lv).insert(a.name@, v));
    }
}

/// Ghost models of a sequence of nodes, in order.
pub open spec fn models(s: Seq<XMLElement>) -> Seq<NodeV>
    decreases s,
{
    if s.len() == 0 {
        Seq::empty()
    } else {
        models(s.drop_last()).push(s.last().model())
    }
}

impl XMLElement {
    /// Ghost model of one node.
    pub open spec fn model(self) -> NodeV
        decreases self,
    {
        match self {
            XMLElement::Element { name, attributes, contents, children } => NodeV::Element {
                name: name@,
                attributes: attrs_model(attributes@),
                contents: vals_model(contents@),
                children: models(children@),
            },
            XMLElement::EmptyElement { name, attributes } => NodeV::EmptyElement {
                name: name@,
                attributes: attrs_model(attributes@),
            },
            XMLElement::Comment { text } => NodeV::Comment { text: text@ },
            XMLElement::Cdata { text } => NodeV::Cdata { text: text@ },
        }
    }
}

pub proof fn lemma_models_push(s: Seq<XMLElement>, e: XMLElement)
    ensures
        models(s.push(e)) == models(s).push(e.model()),
{
    assert(s.push(e).drop_last() =~= s);
}

pub proof fn lemma_models_pointwise(s: Seq<XMLElement>)
    ensures
        models(s).len() == s.len(),
        forall|i: int| 0 <= i < s.len() ==> #[trigger] models(s)[i] == s[i].model(),
    decreases s.len(),
{
    if s.len() > 0 {
        lemma_models_pointwise(s.drop_last());
    }
}

} // verus!
