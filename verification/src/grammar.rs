//! Ghost grammar of a single tag section: its classification into the six
//! tag kinds, and the decomposition of a tag body into name and attributes.
use vstd::prelude::*;

use crate::ast::AttrsV;
use crate::ast::ErrV;
use crate::model::cdata_close;
use crate::model::cdata_open;
use crate::model::find_char;
use crate::model::find_pair;
use crate::model::has_prefix;
use crate::model::has_suffix;
use crate::model::split_on;
use crate::model::split_pair;

verus! {

/// Ghost model of one classified tag section.
#[verifier::ext_equal]
pub enum TagV {
    Decl { name: Seq<char>, attributes: AttrsV },
    Comment { text: Seq<char> },
    Cdata { text: Seq<char> },
    SelfClose { name: Seq<char>, attributes: AttrsV },
    End { name: Seq<char> },
    Start { name: Seq<char>, attributes: AttrsV },
}

pub open spec fn decl_open() -> Seq<char> {
    seq!['<', '?']
}

pub open spec fn decl_close() -> Seq<char> {
    seq!['?', '>']
}

/// The four characters that pick the comment branch.
pub open spec fn comment_mark() -> Seq<char> {
    seq!['<', '!', '-', '-']
}

/// The full five-character comment opener, boundary space included.
pub open spec fn comment_open() -> Seq<char> {
    seq!['<', '!', '-', '-', ' ']
}

/// The full four-character comment closer, boundary space included.
pub open spec fn comment_close() -> Seq<char> {
    seq![' ', '-', '-', '>']
}

pub open spec fn self_close() -> Seq<char> {
    seq!['/', '>']
}

pub open spec fn end_open() -> Seq<char> {
    seq!['<', '/']
}

pub open spec fn tag_open() -> Seq<char> {
    seq!['<']
}

pub open spec fn tag_close() -> Seq<char> {
    seq!['>']
}

pub open spec fn attr_eq() -> Seq<char> {
    seq!['=', '"']
}

/// Drop the one closing quote of an attribute value, when it is there.
pub open spec fn strip_quote(v: Seq<char>) -> Seq<char> {
    if v.len() > 0 && v.last() == '"' {
        v.drop_last()
    } else {
        v
    }
}

/// One `name="value"` piece: the text before the first `="` is the attribute
/// name; the rest, its closing quote dropped, splits on single spaces into
/// the value tokens. A piece without `="` is a fatal failure.
pub open spec fn attr_pair(piece: Seq<char>) -> Result<(Seq<char>, Seq<Seq<char>>), ErrV> {
    match find_pair(piece, '=', '"') {
        None => Err(ErrV { expected: attr_eq(), found: piece }),
        Some(i) => Ok((piece.take(i), split_on(strip_quote(piece.skip(i + 2)), ' '))),
    }
}

/// Fold the attribute pieces, left to right, into the attribute mapping;
/// a later piece of the same name overwrites an earlier one. The leftmost
/// failing piece decides the error.
pub open spec fn attrs_of_pieces(pieces: Seq<Seq<char>>) -> Result<AttrsV, ErrV>
    decreases pieces.len(),
{
    if pieces.len() == 0 {
        Ok(Map::empty())
    } else {
        match attrs_of_pieces(pieces.drop_last()) {
            Err(e) => Err(e),
            Ok(m) => match attr_pair(pieces.last()) {
                Ok(p) => Ok(m.insert(p.0, p.1)),
                Err(e) => Err(e),
            },
        }
    }
}

/// A failing prefix of the attribute pieces decides the whole fold.
pub proof fn lemma_attrs_pieces_err(d: Seq<Seq<char>>, k: int)
    requires
        0 <= k <= d.len(),
        attrs_of_pieces(d.take(k)) is Err,
    ensures
        attrs_of_pieces(d) == attrs_of_pieces(d.take(k)),
    decreases d.len(),
{
    if k == d.len() {
        assert(d.take(k) =~= d);
    } else {
        assert(d.drop_last().take(k) =~= d.take(k));
        lemma_attrs_pieces_err(d.drop_last(), k);
    }
}

/// A stripped tag body: the text before the first space is the name; the rest
/// is the attribute list, cut into pieces on every quote-space sequence. With
/// no space at all the whole body is the name.
pub open spec fn name_attrs(body: Seq<char>) -> Result<(Seq<char>, AttrsV), ErrV> {
    match find_char(body, ' ') {
        None => Ok((body, Map::empty())),
        Some(i) => match attrs_of_pieces(split_pair(body.skip(i + 1), '"', ' ')) {
            Ok(m) => Ok((body.take(i), m)),
            Err(e) => Err(e),
        },
    }
}

/// An XML declaration `<?...?>`, handled as an empty element would be.
pub open spec fn classify_decl(t: Seq<char>) -> Result<TagV, ErrV> {
    if !has_prefix(t, decl_open()) {
        Err(ErrV { expected: decl_open(), found: t })
    } else if t.len() >= 4 && has_suffix(t, decl_close()) {
        match name_attrs(t.subrange(2, t.len() - 2)) {
            Ok(p) => Ok(TagV::Decl { name: p.0, attributes: p.1 }),
            Err(e) => Err(e),
        }
    } else {
        Err(ErrV { expected: decl_close(), found: t })
    }
}

/// A comment `<!-- ... -->`: the inner text loses one boundary space on each
/// side, taken by the fixed opener and closer.
pub open spec fn classify_comment(t: Seq<char>) -> Result<TagV, ErrV> {
    if !has_prefix(t, comment_open()) {
        Err(ErrV { expected: comment_open(), found: t })
    } else if t.len() >= 9 && has_suffix(t, comment_close()) {
        Ok(TagV::Comment { text: t.subrange(5, t.len() - 4) })
    } else {
        Err(ErrV { expected: comment_close(), found: t })
    }
}

/// A CDATA block `<![CDATA[...]]>`: the inner text kept verbatim.
pub open spec fn classify_cdata(t: Seq<char>) -> Result<TagV, ErrV> {
    if !has_prefix(t, cdata_open()) {
        Err(ErrV { expected: cdata_open(), found: t })
    } else if t.len() >= 12 && has_suffix(t, cdata_close()) {
        Ok(TagV::Cdata { text: t.subrange(9, t.len() - 3) })
    } else {
        Err(ErrV { expected: cdata_close(), found: t })
    }
}

/// A self-closing tag `<name .../>`.
pub open spec fn classify_self(t: Seq<char>) -> Result<TagV, ErrV> {
    if !has_prefix(t, tag_open()) {
        Err(ErrV { expected: tag_open(), found: t })
    } else if t.len() >= 3 && has_suffix(t, self_close()) {
        match name_attrs(t.subrange(1, t.len() - 2)) {
            Ok(p) => Ok(TagV::SelfClose { name: p.0, attributes: p.1 }),
            Err(e) => Err(e),
        }
    } else {
        Err(ErrV { expected: self_close(), found: t })
    }
}

/// An end tag `</name>`: the bare name, no attributes.
pub open spec fn classify_end(t: Seq<char>) -> Result<TagV, ErrV> {
    if !has_prefix(t, end_open()) {
        Err(ErrV { expected: end_open(), found: t })
    } else if t.len() >= 3 && has_suffix(t, tag_close()) {
        Ok(TagV::End { name: t.subrange(2, t.len() - 1) })
    } else {
        Err(ErrV { expected: tag_close(), found: t })
    }
}

/// A start tag `<name ...>`.
pub open spec fn classify_start(t: Seq<char>) -> Result<TagV, ErrV> {
    if t.len() >= 2 && has_prefix(t, tag_open()) && has_suffix(t, tag_close()) {
        match name_attrs(t.subrange(1, t.len() - 1)) {
            Ok(p) => Ok(TagV::Start { name: p.0, attributes: p.1 }),
            Err(e) => Err(e),
        }
    } else {
        Err(ErrV { expected: tag_close(), found: t })
    }
}

/// Classify one tag section, the six kinds tried in their priority order.
/// Every missing delimiter is a fatal failure.
pub open spec fn classify(t: Seq<char>) -> Result<TagV, ErrV> {
    if has_prefix(t, decl_open()) {
        classify_decl(t)
    } else if has_prefix(t, comment_mark()) {
        classify_comment(t)
    } else if has_prefix(t, cdata_open()) {
        classify_cdata(t)
    } else if has_suffix(t, self_close()) {
        classify_self(t)
    } else if has_prefix(t, end_open()) {
        classify_end(t)
    } else {
        classify_start(t)
    }
}

} // verus!
