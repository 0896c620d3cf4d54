//! Parts of a source text, and what is left of them when blanks, brackets and
//! other characters at their ends are dropped.

use crate::text::char_in;
use vstd::prelude::*;

verus! {

/// A part of a source text, by the positions of its characters.
#[derive(Clone, Copy, PartialEq, Eq, Structural, Debug)]
pub struct Span {
    pub from: usize,
    pub to: usize,
}

impl Span {
    /// Whether the part lies within the text.
    pub open spec fn fits(self, src: Seq<char>) -> bool {
        self.from <= self.to <= src.len()
    }

    /// The characters of the part.
    pub open spec fn of(self, src: Seq<char>) -> Seq<char> {
        src.subrange(self.from as int, self.to as int)
    }
}

/// Whether a character is white space.
pub open spec fn is_space(c: char) -> bool {
    let n = c as int;
    ||| 9 <= n <= 13
    ||| n == 32
    ||| n == 0x85
    ||| n == 0xa0
    ||| n == 0x1680
    ||| 0x2000 <= n <= 0x200a
    ||| n == 0x2028
    ||| n == 0x2029
    ||| n == 0x202f
    ||| n == 0x205f
    ||| n == 0x3000
}

/// `s` without the characters at its start that satisfy `drop`.
pub open spec fn trim_start(s: Seq<char>, drop: spec_fn(char) -> bool) -> Seq<char>
    decreases s.len(),
{
    if s.len() > 0 && drop(s[0]) {
        trim_start(s.skip(1), drop)
    } else {
        s
    }
}

/// `s` without the characters at its end that satisfy `drop`.
pub open spec fn trim_end(s: Seq<char>, drop: spec_fn(char) -> bool) -> Seq<char>
    decreases s.len(),
{
    if s.len() > 0 && drop(s.last()) {
        trim_end(s.drop_last(), drop)
    } else {
        s
    }
}

/// `s` without the characters at its ends that satisfy `drop`.
pub open spec fn trim_both(s: Seq<char>, drop: spec_fn(char) -> bool) -> Seq<char> {
    trim_end(trim_start(s, drop), drop)
}

/// `s` without the white space at its ends.
pub open spec fn trim(s: Seq<char>) -> Seq<char> {
    trim_both(s, |c: char| is_space(c))
}

/// `s` without the characters of `set` at its ends.
pub open spec fn trim_set(s: Seq<char>, set: Seq<char>) -> Seq<char> {
    trim_both(s, |c: char| set.contains(c))
}

/// Whether `pat` stands in `s` at position `i`.
pub open spec fn stands_at(s: Seq<char>, pat: Seq<char>, i: int) -> bool {
    0 <= i && i + pat.len() <= s.len() && s.subrange(i, i + pat.len()) == pat
}

/// Whether `s` holds `pat`.
pub open spec fn holds(s: Seq<char>, pat: Seq<char>) -> bool {
    exists|i: int| #[trigger] stands_at(s, pat, i)
}

/// Whether a character is white space.
pub fn char_is_space(c: char) -> (r: bool)
    ensures
        r == is_space(c),
{
    let n: u32 = c as u32;
    (9 <= n && n <= 13) || n == 32 || n == 0x85 || n == 0xa0 || n == 0x1680 || (0x2000 <= n && n
        <= 0x200a) || n == 0x2028 || n == 0x2029 || n == 0x202f || n == 0x205f || n == 0x3000
}

/// Whether a character is to be dropped: white space, or one of a set.
fn dropped(c: char, set: Option<&Vec<char>>) -> (r: bool)
    ensures
        r == (match set {
            Some(chars) => chars@.contains(c),
            None => is_space(c),
        }),
{
    match set {
        Some(chars) => char_in(c, chars),
        None => char_is_space(c),
    }
}

/// What is to be dropped: white space, or the characters of a set.
pub open spec fn drops(set: Option<&Vec<char>>) -> spec_fn(char) -> bool {
    match set {
        Some(chars) => |c: char| chars@.contains(c),
        None => |c: char| is_space(c),
    }
}

/// Drops characters at the start of a part.
pub fn drop_start(src: &Vec<char>, span: Span, set: Option<&Vec<char>>) -> (r: Span)
    requires
        span.fits(src@),
    ensures
        r.fits(src@),
        r.to == span.to,
        r.of(src@) == trim_start(span.of(src@), drops(set)),
{
    let mut from: usize = span.from;
    while from < span.to && dropped(src[from], set)
        invariant
            span.from <= from <= span.to <= src@.len(),
            trim_start(src@.subrange(from as int, span.to as int), drops(set)) == trim_start(
                span.of(src@),
                drops(set),
            ),
        decreases span.to - from,
    {
        proof {
            let s = src@.subrange(from as int, span.to as int);
            assert(s.skip(1) =~= src@.subrange(from + 1, span.to as int));
        }
        from += 1;
    }
    Span { from, to: span.to }
}

/// Drops characters at the end of a part.
pub fn drop_end(src: &Vec<char>, span: Span, set: Option<&Vec<char>>) -> (r: Span)
    requires
        span.fits(src@),
    ensures
        r.fits(src@),
        r.from == span.from,
        r.of(src@) == trim_end(span.of(src@), drops(set)),
{
    let mut to: usize = span.to;
    while span.from < to && dropped(src[to - 1], set)
        invariant
            span.from <= to <= span.to <= src@.len(),
            trim_end(src@.subrange(span.from as int, to as int), drops(set)) == trim_end(
                span.of(src@),
                drops(set),
            ),
        decreases to,
    {
        proof {
            let s = src@.subrange(span.from as int, to as int);
            assert(s.drop_last() =~= src@.subrange(span.from as int, to - 1));
        }
        to -= 1;
    }
    Span { from: span.from, to }
}

/// Drops characters at both ends of a part.
fn drop_both(src: &Vec<char>, span: Span, set: Option<&Vec<char>>) -> (r: Span)
    requires
        span.fits(src@),
    ensures
        r.fits(src@),
        r.of(src@) == trim_both(span.of(src@), drops(set)),
{
    let s = drop_start(src, span, set);
    drop_end(src, s, set)
}

/// Drops the white space at both ends of a part.
pub fn trim_span(src: &Vec<char>, span: Span) -> (r: Span)
    requires
        span.fits(src@),
    ensures
        r.fits(src@),
        r.of(src@) == trim(span.of(src@)),
{
    drop_both(src, span, None)
}

/// Drops the characters of a set at both ends of a part.
pub fn trim_set_span(src: &Vec<char>, span: Span, set: &Vec<char>) -> (r: Span)
    requires
        span.fits(src@),
    ensures
        r.fits(src@),
        r.of(src@) == trim_set(span.of(src@), set@),
{
    drop_both(src, span, Some(set))
}

} // verus!
