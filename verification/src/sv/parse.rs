//! The parser: from a source text to the walk through its syntax tree.

use crate::sv::cst;
use crate::sv::cst::{CstEvent, EventView};
use crate::sv::span;
use sv_parser::{parse_sv_str, NodeEvent, RefNode};
use vstd::prelude::*;

verus! {

/// What a parse says: the text that the syntax tree is of and the walk through
/// the tree, or the text of the error.
pub type ParseView = Result<(Seq<char>, Seq<EventView>), Seq<char>>;

/// The name of the one directive that opens a file.
pub open spec fn file_directive() -> Seq<char> {
    seq!['i', 'n', 'c', 'l', 'u', 'd', 'e']
}

/// Whether a character can be part of a word.
pub open spec fn in_word(c: char) -> bool {
    'a' <= c <= 'z' || 'A' <= c <= 'Z' || '0' <= c <= '9' || c == '_'
}

/// Whether a word of a text goes from position `a` to position `b`.
pub open spec fn word_at(s: Seq<char>, a: int, b: int) -> bool {
    &&& 0 <= a < b <= s.len()
    &&& forall|i: int| a <= i < b ==> in_word(#[trigger] s[i])
    &&& a > 0 ==> !in_word(s[a - 1])
    &&& b < s.len() ==> !in_word(s[b])
}

/// Whether a word of a text is the beginning of the name of the directive that opens
/// a file.
pub open spec fn begins_the_name(s: Seq<char>) -> bool {
    exists|a: int, b: int| #[trigger] word_at(s, a, b) && s.subrange(a, b).is_prefix_of(
        file_directive(),
    )
}

/// Whether a source text stands alone: it holds no compiler directive at all; or it
/// does not hold the name of the directive that opens a file, and macros cannot put
/// that name together either, since none is made or since no word begins it.
pub open spec fn stands_alone(source: Seq<char>) -> bool {
    !source.contains('`') || (!span::holds(source, file_directive()) && (!span::holds(
        source,
        "define"@,
    ) || !begins_the_name(source)))
}

/// What the parser makes of a source text that stands alone.
pub uninterp spec fn parsed(source: Seq<char>) -> Result<
    (Seq<char>, Seq<EventView>),
    Seq<char>,
>;

/// What a parse says.
pub open spec fn parse_view(r: Result<(String, Vec<CstEvent>), String>) -> ParseView {
    match r {
        Ok(tree) => Ok((tree.0@, cst::steps(tree.1@))),
        Err(e) => Err(e@),
    }
}

/// Calls `sv_parser::parse_sv_str` on a source text, without definitions and
/// without directories to look for files in. Gives the text of the tree that it
/// returns, by `SyntaxTree::get_str` on the root, and the walk through that tree.
/// The text of the tree is what the preprocessor made of the source text, and the
/// tokens of the tree are placed in it.
///
/// Where the source text stands alone, the result is a function of the source text.
/// The preprocessor opens a file only for the directive of that name, in the source
/// text or in what a macro expands to. A macro puts its arguments and the text in
/// its definition together word by word: it can join whole words, and so come to the
/// name only by a word that begins it. Two backquotes in a row join words; they can
/// come together out of an argument and the text around it, so that the source text
/// need not hold them. All else that the preprocessor and the parser keep
/// (definitions, directives, the set of keywords) begins anew with each call. Of any
/// other source text nothing is said.
#[verifier::external_body]
pub(crate) fn parse_events(source: &str) -> (r: Result<(String, Vec<CstEvent>), String>)
    ensures
        stands_alone(source@) ==> parse_view(r) == parsed(source@),
{
    let defines = std::collections::HashMap::new();
    let tree = match parse_sv_str(source, "input.sv", &defines, &["."; 0], false, false) {
        Ok((tree, _)) => tree,
        Err(e) => return Err(format!("{:?}", e)),
    };
    let root: Vec<RefNode> = tree.into_iter().take(1).collect();
    let text = tree.get_str(root).unwrap_or_default().to_string();
    let events = tree.into_iter().event().map(|e| match e {
        NodeEvent::Enter(RefNode::Locate(x)) => CstEvent::token(x.offset, x.len),
        NodeEvent::Enter(n) => CstEvent::entry(n.to_string()),
        NodeEvent::Leave(_) => CstEvent::exit(),
    }).collect();
    Ok((text, events))
}

} // verus!
