//! Executable slicing and tag decomposition, proved against the ghost
//! grammar of `crate::grammar` and the text utilities of `crate::model`.
use vstd::prelude::*;
use vstd::string::StrSliceExecFns;

use crate::ast::attrs_model;
use crate::ast::attr_names_unique;
use crate::ast::lemma_attrs_model_update;
use crate::ast::vals_model;
use crate::ast::Attribute;
use crate::ast::AttrsV;
use crate::ast::ErrV;
use crate::ast::ParseError;
use crate::grammar::attr_eq;
use crate::grammar::classify;
use crate::grammar::classify_cdata;
use crate::grammar::classify_comment;
use crate::grammar::classify_decl;
use crate::grammar::classify_end;
use crate::grammar::classify_self;
use crate::grammar::classify_start;
use crate::grammar::comment_close;
use crate::grammar::comment_mark;
use crate::grammar::comment_open;
use crate::grammar::decl_close;
use crate::grammar::decl_open;
use crate::grammar::end_open;
use crate::grammar::self_close;
use crate::grammar::tag_close;
use crate::grammar::tag_open;
use crate::grammar::TagV;
use crate::grammar::attr_pair;
use crate::grammar::attrs_of_pieces;
use crate::grammar::lemma_attrs_pieces_err;
use crate::grammar::name_attrs;
use crate::grammar::strip_quote;
use crate::model::cdata_close;
use crate::model::cdata_open;
use crate::model::find_char;
use crate::model::has_prefix;
use crate::model::has_suffix;
use crate::model::find_pair;
use crate::model::find_triple;
use crate::model::is_blank;
use crate::model::is_space_char;
use crate::model::lemma_find_char_is;
use crate::model::lemma_find_char_none;
use crate::model::lemma_find_pair_is;
use crate::model::lemma_find_pair_none;
use crate::model::lemma_find_triple_is;
use crate::model::lemma_find_triple_none;
use crate::model::split_on;
use crate::model::split_pair;

verus! {

/// First occurrence of `c` in `s`, as the ghost `find_char` names it.
pub fn find_first(s: &str, c: char) -> (r: Option<usize>)
    ensures
        match r {
            Some(i) => find_char(s@, c) == Some(i as int) && i < s@.len(),
            None => find_char(s@, c) is None,
        },
{
    let n = s.unicode_len();
    let mut i: usize = 0;
    while i < n
        invariant
            n == s@.len(),
            i <= n,
            forall|j: int| 0 <= j < i ==> s@[j] != c,
        decreases n - i,
    {
        if s.get_char(i) == c {
            proof {
                lemma_find_char_is(s@, c, i as int);
            }
            return Some(i);
        }
        i = i + 1;
    }
    proof {
        lemma_find_char_none(s@, c);
    }
    None
}

/// First occurrence of the pattern `c1 c2` in `s`, as `find_pair` names it.
pub fn find_pair_first(s: &str, c1: char, c2: char) -> (r: Option<usize>)
    ensures
        match r {
            Some(i) => find_pair(s@, c1, c2) == Some(i as int) && i + 1 < s@.len(),
            None => find_pair(s@, c1, c2) is None,
        },
{
    let n = s.unicode_len();
    if n < 2 {
        proof {
            lemma_find_pair_none(s@, c1, c2);
        }
        return None;
    }
    let mut i: usize = 0;
    while i < n - 1
        invariant
            n == s@.len(),
            2 <= n,
            i <= n,
            forall|j: int| 0 <= j < i ==> !(#[trigger] s@[j] == c1 && s@[j + 1] == c2),
        decreases n - i,
    {
        if s.get_char(i) == c1 && s.get_char(i + 1) == c2 {
            proof {
                lemma_find_pair_is(s@, c1, c2, i as int);
            }
            return Some(i);
        }
        i = i + 1;
    }
    proof {
        lemma_find_pair_none(s@, c1, c2);
    }
    None
}

/// First occurrence of the pattern `c1 c2 c3` in `s`, as `find_triple`
/// names it.
pub fn find_triple_first(s: &str, c1: char, c2: char, c3: char) -> (r: Option<usize>)
    ensures
        match r {
            Some(i) => find_triple(s@, c1, c2, c3) == Some(i as int) && i + 2 < s@.len(),
            None => find_triple(s@, c1, c2, c3) is None,
        },
{
    let n = s.unicode_len();
    if n < 3 {
        proof {
            lemma_find_triple_none(s@, c1, c2, c3);
        }
        return None;
    }
    let mut i: usize = 0;
    while i < n - 2
        invariant
            n == s@.len(),
            3 <= n,
            i <= n,
            forall|j: int|
                0 <= j < i ==> !(#[trigger] s@[j] == c1 && s@[j + 1] == c2 && s@[j + 2] == c3),
        decreases n - i,
    {
        if s.get_char(i) == c1 && s.get_char(i + 1) == c2 && s.get_char(i + 2) == c3 {
            proof {
                lemma_find_triple_is(s@, c1, c2, c3, i as int);
            }
            return Some(i);
        }
        i = i + 1;
    }
    proof {
        lemma_find_triple_none(s@, c1, c2, c3);
    }
    None
}

/// Does `s` begin with the nine-character CDATA opener?
pub fn has_cdata_prefix(s: &str) -> (r: bool)
    ensures
        r == has_prefix(s@, cdata_open()),
{
    let n = s.unicode_len();
    if n >= 9 && s.get_char(0) == '<' && s.get_char(1) == '!' && s.get_char(2) == '['
        && s.get_char(3) == 'C' && s.get_char(4) == 'D' && s.get_char(5) == 'A' && s.get_char(6)
        == 'T' && s.get_char(7) == 'A' && s.get_char(8) == '[' {
        proof {
            assert(s@.take(9) =~= cdata_open());
        }
        true
    } else {
        proof {
            if has_prefix(s@, cdata_open()) {
                assert(forall|k: int| 0 <= k < 9 ==> #[trigger] s@.take(9)[k] == s@[k]);
                assert(false);
            }
        }
        false
    }
}

/// Does `s` hold nothing but spaces and newlines?
pub fn is_blank_str(s: &str) -> (b: bool)
    ensures
        b == is_blank(s@),
{
    let n = s.unicode_len();
    let mut i: usize = 0;
    while i < n
        invariant
            n == s@.len(),
            i <= n,
            forall|j: int| 0 <= j < i ==> is_space_char(s@[j]),
        decreases n - i,
    {
        let c = s.get_char(i);
        if c != ' ' && c != '\n' {
            assert(!is_space_char(s@[i as int]));
            return false;
        }
        i = i + 1;
    }
    true
}

/// Cut a value text on every single space into its tokens, in order.
pub fn split_values(v: &str) -> (vals: Vec<String>)
    ensures
        vals_model(vals@) == split_on(v@, ' '),
{
    let mut out: Vec<String> = Vec::new();
    let mut rest: &str = v;
    let mut done = false;
    while !done
        invariant
            split_on(v@, ' ') =~= vals_model(out@) + (if done {
                Seq::<Seq<char>>::empty()
            } else {
                split_on(rest@, ' ')
            }),
        decreases (if done {
            0int
        } else {
            rest@.len() as int + 1
        }),
    {
        let ghost out0 = out@;
        match find_first(rest, ' ') {
            None => {
                out.push(rest.to_owned());
                done = true;
                proof {
                    assert(vals_model(out@) =~= vals_model(out0).push(rest@));
                    assert(vals_model(out0).push(rest@) =~= vals_model(out0) + seq![rest@]);
                }
            },
            Some(i) => {
                let ghost rest0 = rest@;
                let piece = rest.substring_char(0, i);
                out.push(piece.to_owned());
                let n = rest.unicode_len();
                rest = rest.substring_char(i + 1, n);
                proof {
                    assert(piece@ =~= rest0.take(i as int));
                    assert(rest@ =~= rest0.skip(i + 1));
                    assert(vals_model(out@) =~= vals_model(out0).push(rest0.take(i as int)));
                    assert(vals_model(out0) + split_on(rest0, ' ') =~= vals_model(out@)
                        + split_on(rest@, ' '));
                }
            },
        }
    }
    proof {
        assert(vals_model(out@) + Seq::<Seq<char>>::empty() =~= vals_model(out@));
    }
    out
}

/// Cut an attribute list on every quote-space sequence into its
/// `name="value"` pieces, in order.
pub fn split_pieces(s: &str) -> (pieces: Vec<String>)
    ensures
        vals_model(pieces@) == split_pair(s@, '"', ' '),
{
    let mut out: Vec<String> = Vec::new();
    let mut rest: &str = s;
    let mut done = false;
    while !done
        invariant
            split_pair(s@, '"', ' ') =~= vals_model(out@) + (if done {
                Seq::<Seq<char>>::empty()
            } else {
                split_pair(rest@, '"', ' ')
            }),
        decreases (if done {
            0int
        } else {
            rest@.len() as int + 1
        }),
    {
        let ghost out0 = out@;
        match find_pair_first(rest, '"', ' ') {
            None => {
                out.push(rest.to_owned());
                done = true;
                proof {
                    assert(vals_model(out@) =~= vals_model(out0).push(rest@));
                    assert(vals_model(out0).push(rest@) =~= vals_model(out0) + seq![rest@]);
                }
            },
            Some(i) => {
                let ghost rest0 = rest@;
                let piece = rest.substring_char(0, i);
                out.push(piece.to_owned());
                let n = rest.unicode_len();
                rest = rest.substring_char(i + 2, n);
                proof {
                    assert(piece@ =~= rest0.take(i as int));
                    assert(rest@ =~= rest0.skip(i + 2));
                    assert(vals_model(out@) =~= vals_model(out0).push(rest0.take(i as int)));
                    assert(vals_model(out0) + split_pair(rest0, '"', ' ') =~= vals_model(out@)
                        + split_pair(rest@, '"', ' '));
                }
            },
        }
    }
    proof {
        assert(vals_model(out@) + Seq::<Seq<char>>::empty() =~= vals_model(out@));
    }
    out
}

/// Decompose one `name="value..."` piece, as the ghost `attr_pair` says.
pub fn parse_attr_pair(piece: &str) -> (r: Result<Attribute, ParseError>)
    ensures
        match r {
            Ok(a) => attr_pair(piece@) == Ok::<(Seq<char>, Seq<Seq<char>>), ErrV>(
                (a.name@, vals_model(a.values@)),
            ),
            Err(e) => attr_pair(piece@) == Err::<(Seq<char>, Seq<Seq<char>>), ErrV>(e.model()),
        },
{
    match find_pair_first(piece, '=', '"') {
        None => {
            let e = ParseError { expected: "=\"".to_owned(), found: piece.to_owned() };
            proof {
                reveal_strlit("=\"");
                assert(e.model().expected =~= attr_eq());
            }
            Err(e)
        },
        Some(i) => {
            let n = piece.unicode_len();
            let name = piece.substring_char(0, i).to_owned();
            let mut vtext = piece.substring_char(i + 2, n);
            proof {
                assert(vtext@ =~= piece@.skip(i + 2));
            }
            let vn = vtext.unicode_len();
            if vn > 0 && vtext.get_char(vn - 1) == '"' {
                vtext = vtext.substring_char(0, vn - 1);
                proof {
                    assert(vtext@ =~= strip_quote(piece@.skip(i + 2)));
                }
            }
            let values = split_values(vtext);
            proof {
                assert(name@ =~= piece@.take(i as int));
            }
            Ok(Attribute { name, values })
        },
    }
}

/// Record one attribute: overwrite the entry of the same name when there is
/// one, append otherwise.
pub fn attrs_insert(attrs: &mut Vec<Attribute>, a: Attribute)
    requires
        attr_names_unique(old(attrs)@),
    ensures
        attr_names_unique(final(attrs)@),
        attrs_model(final(attrs)@) == attrs_model(old(attrs)@).insert(
            a.name@,
            vals_model(a.values@),
        ),
{
    let n = attrs.len();
    let mut i: usize = 0;
    while i < n
        invariant
            n == attrs@.len(),
            i <= n,
            attrs@ == old(attrs)@,
            attr_names_unique(attrs@),
            forall|j: int| 0 <= j < i ==> attrs@[j].name@ != a.name@,
        decreases n - i,
    {
        if attrs[i].name == a.name {
            let ghost s0 = attrs@;
            let ghost k = i as int;
            attrs.set(i, a);
            proof {
                lemma_attrs_model_update(s0, k, a);
                assert(attr_names_unique(attrs@));
            }
            return ;
        }
        i = i + 1;
    }
    let ghost s0 = attrs@;
    attrs.push(a);
    proof {
        assert(attrs@.drop_last() =~= s0);
        assert(attrs@.last() == a);
        assert(attr_names_unique(attrs@));
    }
}

/// Fold the attribute pieces into an attribute list with unique names, whose
/// mapping is the one the ghost `attrs_of_pieces` builds.
pub fn parse_attr_pieces(pieces: &Vec<String>) -> (r: Result<Vec<Attribute>, ParseError>)
    ensures
        match r {
            Ok(a) => attrs_of_pieces(vals_model(pieces@)) == Ok::<AttrsV, ErrV>(attrs_model(a@))
                && attr_names_unique(a@),
            Err(e) => attrs_of_pieces(vals_model(pieces@)) == Err::<AttrsV, ErrV>(e.model()),
        },
{
    let ghost d = vals_model(pieces@);
    let n = pieces.len();
    let mut acc: Vec<Attribute> = Vec::new();
    let mut k: usize = 0;
    proof {
        assert(d.take(0) =~= Seq::<Seq<char>>::empty());
    }
    while k < n
        invariant
            d == vals_model(pieces@),
            n == pieces@.len(),
            d.len() == n,
            k <= n,
            attrs_of_pieces(d.take(k as int)) == Ok::<AttrsV, ErrV>(attrs_model(acc@)),
            attr_names_unique(acc@),
        decreases n - k,
    {
        proof {
            assert(d.take(k + 1).drop_last() =~= d.take(k as int));
            assert(d.take(k + 1).last() == pieces@[k as int]@);
        }
        match parse_attr_pair(&pieces[k]) {
            Ok(a) => {
                attrs_insert(&mut acc, a);
            },
            Err(e) => {
                proof {
                    lemma_attrs_pieces_err(d, k + 1);
                }
                return Err(e);
            },
        }
        k = k + 1;
    }
    proof {
        assert(d.take(n as int) =~= d);
    }
    Ok(acc)
}

/// Split a stripped tag body into its element name and its attribute list.
pub fn parse_element_name_and_attributes(body: &str) -> (r: Result<
    (String, Vec<Attribute>),
    ParseError,
>)
    ensures
        match r {
            Ok(p) => name_attrs(body@) == Ok::<(Seq<char>, AttrsV), ErrV>(
                (p.0@, attrs_model(p.1@)),
            ) && attr_names_unique(p.1@),
            Err(e) => name_attrs(body@) == Err::<(Seq<char>, AttrsV), ErrV>(e.model()),
        },
{
    match find_first(body, ' ') {
        None => {
            let attrs: Vec<Attribute> = Vec::new();
            Ok((body.to_owned(), attrs))
        },
        Some(i) => {
            let n = body.unicode_len();
            let name = body.substring_char(0, i);
            let rest = body.substring_char(i + 1, n);
            proof {
                assert(rest@ =~= body@.skip(i + 1));
                assert(name@ =~= body@.take(i as int));
            }
            let pieces = split_pieces(rest);
            match parse_attr_pieces(&pieces) {
                Ok(attrs) => Ok((name.to_owned(), attrs)),
                Err(e) => Err(e),
            }
        },
    }
}

/// One classified tag section.
#[derive(Debug)]
pub enum Tag {
    Decl { name: String, attributes: Vec<Attribute> },
    Comment { text: String },
    Cdata { text: String },
    SelfClose { name: String, attributes: Vec<Attribute> },
    End { name: String },
    Start { name: String, attributes: Vec<Attribute> },
}

impl Tag {
    pub open spec fn model(self) -> TagV {
        match self {
            Tag::Decl { name, attributes } => TagV::Decl {
                name: name@,
                attributes: attrs_model(attributes@),
            },
            Tag::Comment { text } => TagV::Comment { text: text@ },
            Tag::Cdata { text } => TagV::Cdata { text: text@ },
            Tag::SelfClose { name, attributes } => TagV::SelfClose {
                name: name@,
                attributes: attrs_model(attributes@),
            },
            Tag::End { name } => TagV::End { name: name@ },
            Tag::Start { name, attributes } => TagV::Start {
                name: name@,
                attributes: attrs_model(attributes@),
            },
        }
    }
}

/// Ghost model of a classification outcome.
pub open spec fn tag_result_model(r: Result<Tag, ParseError>) -> Result<TagV, ErrV> {
    match r {
        Ok(t) => Ok(t.model()),
        Err(e) => Err(e.model()),
    }
}

/// Decompose an XML declaration `<?...?>` into an empty-element tag.
pub fn parse_version(tag: &str) -> (r: Result<Tag, ParseError>)
    ensures
        tag_result_model(r) == classify_decl(tag@),
{
    let n = tag.unicode_len();
    if !(n >= 2 && tag.get_char(0) == '<' && tag.get_char(1) == '?') {
        proof {
            if has_prefix(tag@, decl_open()) {
                assert(tag@.take(2)[0] == tag@[0]);
                assert(tag@.take(2)[1] == tag@[1]);
                assert(false);
            }
        }
        let e = ParseError { expected: "<?".to_owned(), found: tag.to_owned() };
        proof {
            reveal_strlit("<?");
            assert(e.model().expected =~= decl_open());
        }
        Err(e)
    } else if n >= 4 && tag.get_char(n - 1) == '>' && tag.get_char(n - 2) == '?' {
        proof {
            assert(tag@.take(2) =~= decl_open());
            assert(tag@.skip(tag@.len() - 2) =~= decl_close());
        }
        let body = tag.substring_char(2, n - 2);
        match parse_element_name_and_attributes(body) {
            Ok(p) => Ok(Tag::Decl { name: p.0, attributes: p.1 }),
            Err(e) => Err(e),
        }
    } else {
        proof {
            assert(tag@.take(2) =~= decl_open());
            if tag@.len() >= 4 && has_suffix(tag@, decl_close()) {
                assert(tag@.skip(tag@.len() - 2)[0] == tag@[tag@.len() - 2]);
                assert(tag@.skip(tag@.len() - 2)[1] == tag@[tag@.len() - 1]);
                assert(false);
            }
        }
        let e = ParseError { expected: "?>".to_owned(), found: tag.to_owned() };
        proof {
            reveal_strlit("?>");
            assert(e.model().expected =~= decl_close());
        }
        Err(e)
    }
}

/// Decompose a comment `<!-- ... -->`.
pub fn parse_comment(tag: &str) -> (r: Result<Tag, ParseError>)
    ensures
        tag_result_model(r) == classify_comment(tag@),
{
    let n = tag.unicode_len();
    if !(n >= 5 && tag.get_char(0) == '<' && tag.get_char(1) == '!' && tag.get_char(2) == '-'
        && tag.get_char(3) == '-' && tag.get_char(4) == ' ') {
        proof {
            if has_prefix(tag@, comment_open()) {
                assert(forall|k: int| 0 <= k < 5 ==> #[trigger] tag@.take(5)[k] == tag@[k]);
                assert(false);
            }
        }
        let e = ParseError { expected: "<!-- ".to_owned(), found: tag.to_owned() };
        proof {
            reveal_strlit("<!-- ");
            assert(e.model().expected =~= comment_open());
        }
        Err(e)
    } else if n >= 9 && tag.get_char(n - 1) == '>' && tag.get_char(n - 2) == '-' && tag.get_char(
        n - 3,
    ) == '-' && tag.get_char(n - 4) == ' ' {
        proof {
            assert(tag@.take(5) =~= comment_open());
            assert(tag@.skip(tag@.len() - 4) =~= comment_close());
        }
        Ok(Tag::Comment { text: tag.substring_char(5, n - 4).to_owned() })
    } else {
        proof {
            assert(tag@.take(5) =~= comment_open());
            if tag@.len() >= 9 && has_suffix(tag@, comment_close()) {
                assert(forall|k: int|
                    0 <= k < 4 ==> #[trigger] tag@.skip(tag@.len() - 4)[k] == tag@[tag@.len() - 4
                        + k]);
                assert(false);
            }
        }
        let e = ParseError { expected: " -->".to_owned(), found: tag.to_owned() };
        proof {
            reveal_strlit(" -->");
            assert(e.model().expected =~= comment_close());
        }
        Err(e)
    }
}

/// Decompose a CDATA block `<![CDATA[...]]>`, the inner text verbatim.
pub fn parse_cdata(tag: &str) -> (r: Result<Tag, ParseError>)
    ensures
        tag_result_model(r) == classify_cdata(tag@),
{
    let n = tag.unicode_len();
    if !has_cdata_prefix(tag) {
        let e = ParseError { expected: "<![CDATA[".to_owned(), found: tag.to_owned() };
        proof {
            reveal_strlit("<![CDATA[");
            assert(e.model().expected =~= cdata_open());
        }
        Err(e)
    } else if n >= 12 && tag.get_char(n - 1) == '>' && tag.get_char(n - 2) == ']' && tag.get_char(
        n - 3,
    ) == ']' {
        proof {
            assert(tag@.skip(tag@.len() - 3) =~= cdata_close());
        }
        Ok(Tag::Cdata { text: tag.substring_char(9, n - 3).to_owned() })
    } else {
        proof {
            if tag@.len() >= 12 && has_suffix(tag@, cdata_close()) {
                assert(forall|k: int|
                    0 <= k < 3 ==> #[trigger] tag@.skip(tag@.len() - 3)[k] == tag@[tag@.len() - 3
                        + k]);
                assert(false);
            }
        }
        let e = ParseError { expected: "]]>".to_owned(), found: tag.to_owned() };
        proof {
            reveal_strlit("]]>");
            assert(e.model().expected =~= cdata_close());
        }
        Err(e)
    }
}

/// Decompose a self-closing tag `<name .../>`.
pub fn parse_empty_element_tag(tag: &str) -> (r: Result<Tag, ParseError>)
    ensures
        tag_result_model(r) == classify_self(tag@),
{
    let n = tag.unicode_len();
    if !(n >= 1 && tag.get_char(0) == '<') {
        proof {
            if has_prefix(tag@, tag_open()) {
                assert(tag@.take(1)[0] == tag@[0]);
                assert(false);
            }
        }
        let e = ParseError { expected: "<".to_owned(), found: tag.to_owned() };
        proof {
            reveal_strlit("<");
            assert(e.model().expected =~= tag_open());
        }
        Err(e)
    } else if n >= 3 && tag.get_char(n - 1) == '>' && tag.get_char(n - 2) == '/' {
        proof {
            assert(tag@.take(1) =~= tag_open());
            assert(tag@.skip(tag@.len() - 2) =~= self_close());
        }
        let body = tag.substring_char(1, n - 2);
        match parse_element_name_and_attributes(body) {
            Ok(p) => Ok(Tag::SelfClose { name: p.0, attributes: p.1 }),
            Err(e) => Err(e),
        }
    } else {
        proof {
            assert(tag@.take(1) =~= tag_open());
            if tag@.len() >= 3 && has_suffix(tag@, self_close()) {
                assert(tag@.skip(tag@.len() - 2)[0] == tag@[tag@.len() - 2]);
                assert(tag@.skip(tag@.len() - 2)[1] == tag@[tag@.len() - 1]);
                assert(false);
            }
        }
        let e = ParseError { expected: "/>".to_owned(), found: tag.to_owned() };
        proof {
            reveal_strlit("/>");
            assert(e.model().expected =~= self_close());
        }
        Err(e)
    }
}

/// Decompose an end tag `</name>` into its bare name.
pub fn parse_element_stop_tag(tag: &str) -> (r: Result<Tag, ParseError>)
    ensures
        tag_result_model(r) == classify_end(tag@),
{
    let n = tag.unicode_len();
    if !(n >= 2 && tag.get_char(0) == '<' && tag.get_char(1) == '/') {
        proof {
            if has_prefix(tag@, end_open()) {
                assert(tag@.take(2)[0] == tag@[0]);
                assert(tag@.take(2)[1] == tag@[1]);
                assert(false);
            }
        }
        let e = ParseError { expected: "</".to_owned(), found: tag.to_owned() };
        proof {
            reveal_strlit("</");
            assert(e.model().expected =~= end_open());
        }
        Err(e)
    } else if n >= 3 && tag.get_char(n - 1) == '>' {
        proof {
            assert(tag@.take(2) =~= end_open());
            assert(tag@.skip(tag@.len() - 1) =~= tag_close());
        }
        Ok(Tag::End { name: tag.substring_char(2, n - 1).to_owned() })
    } else {
        proof {
            assert(tag@.take(2) =~= end_open());
            if tag@.len() >= 3 && has_suffix(tag@, tag_close()) {
                assert(tag@.skip(tag@.len() - 1)[0] == tag@[tag@.len() - 1]);
                assert(false);
            }
        }
        let e = ParseError { expected: ">".to_owned(), found: tag.to_owned() };
        proof {
            reveal_strlit(">");
            assert(e.model().expected =~= tag_close());
        }
        Err(e)
    }
}

/// Decompose a start tag `<name ...>`.
pub fn parse_element_start_tag(tag: &str) -> (r: Result<Tag, ParseError>)
    ensures
        tag_result_model(r) == classify_start(tag@),
{
    let n = tag.unicode_len();
    if n >= 2 && tag.get_char(0) == '<' && tag.get_char(n - 1) == '>' {
        proof {
            assert(tag@.take(1) =~= tag_open());
            assert(tag@.skip(tag@.len() - 1) =~= tag_close());
        }
        let body = tag.substring_char(1, n - 1);
        match parse_element_name_and_attributes(body) {
            Ok(p) => Ok(Tag::Start { name: p.0, attributes: p.1 }),
            Err(e) => Err(e),
        }
    } else {
        proof {
            if tag@.len() >= 2 && has_prefix(tag@, tag_open()) && has_suffix(tag@, tag_close()) {
                assert(tag@.take(1)[0] == tag@[0]);
                assert(tag@.skip(tag@.len() - 1)[0] == tag@[tag@.len() - 1]);
                assert(false);
            }
        }
        let e = ParseError { expected: ">".to_owned(), found: tag.to_owned() };
        proof {
            reveal_strlit(">");
            assert(e.model().expected =~= tag_close());
        }
        Err(e)
    }
}

/// Classify one tag section, trying the six kinds in their priority order.
pub fn classify_tag(tag: &str) -> (r: Result<Tag, ParseError>)
    ensures
        tag_result_model(r) == classify(tag@),
{
    let n = tag.unicode_len();
    if n >= 2 && tag.get_char(0) == '<' && tag.get_char(1) == '?' {
        proof {
            assert(tag@.take(2) =~= decl_open());
        }
        parse_version(tag)
    } else {
        proof {
            if has_prefix(tag@, decl_open()) {
                assert(tag@.take(2)[0] == tag@[0]);
                assert(tag@.take(2)[1] == tag@[1]);
                assert(false);
            }
        }
        if n >= 4 && tag.get_char(0) == '<' && tag.get_char(1) == '!' && tag.get_char(2) == '-'
            && tag.get_char(3) == '-' {
            proof {
                assert(tag@.take(4) =~= comment_mark());
            }
            parse_comment(tag)
        } else {
            proof {
                if has_prefix(tag@, comment_mark()) {
                    assert(forall|k: int| 0 <= k < 4 ==> #[trigger] tag@.take(4)[k] == tag@[k]);
                    assert(false);
                }
            }
            if has_cdata_prefix(tag) {
                parse_cdata(tag)
            } else {
                if n >= 2 && tag.get_char(n - 2) == '/' && tag.get_char(n - 1) == '>' {
                    proof {
                        assert(tag@.skip(tag@.len() - 2) =~= self_close());
                    }
                    parse_empty_element_tag(tag)
                } else {
                    proof {
                        if has_suffix(tag@, self_close()) {
                            assert(tag@.skip(tag@.len() - 2)[0] == tag@[tag@.len() - 2]);
                            assert(tag@.skip(tag@.len() - 2)[1] == tag@[tag@.len() - 1]);
                            assert(false);
                        }
                    }
                    if n >= 2 && tag.get_char(0) == '<' && tag.get_char(1) == '/' {
                        proof {
                            assert(tag@.take(2) =~= end_open());
                        }
                        parse_element_stop_tag(tag)
                    } else {
                        proof {
                            if has_prefix(tag@, end_open()) {
                                assert(tag@.take(2)[0] == tag@[0]);
                                assert(tag@.take(2)[1] == tag@[1]);
                                assert(false);
                            }
                        }
                        parse_element_start_tag(tag)
                    }
                }
            }
        }
    }
}

} // verus!
