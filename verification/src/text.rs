//! Character level views of strings: the vocabulary in which names, source
//! slices and number literals are specified.

use vstd::prelude::*;

verus! {

/// The characters of `s`, in order.
pub fn chars_of(s: &str) -> (r: Vec<char>)
    ensures
        r@ == s@,
{
    let mut v: Vec<char> = Vec::new();
    for c in it: s.chars()
        invariant
            v@ == it.seq().take(it.index()),
            it.seq() == s@,
    {
        v.push(c);
    }
    v
}

/// Whether two strings hold the same characters.
pub fn same_text(a: &str, b: &str) -> (r: bool)
    ensures
        r == (a@ == b@),
{
    a.to_owned() == b.to_owned()
}

/// The decimal digit `d`.
pub open spec fn decimal_digit(d: nat) -> Seq<char> {
    seq![('0' as int + d) as char]
}

/// `n` in decimal.
pub open spec fn decimal(n: nat) -> Seq<char>
    decreases n,
{
    if n < 10 {
        decimal_digit(n)
    } else {
        decimal(n / 10) + decimal_digit(n % 10)
    }
}

/// The decimal digit `d`.
fn digit_text(d: u64) -> (r: &'static str)
    requires
        d < 10,
    ensures
        r@ == decimal_digit(d as nat),
{
    proof {
        reveal_strlit("0");
        reveal_strlit("1");
        reveal_strlit("2");
        reveal_strlit("3");
        reveal_strlit("4");
        reveal_strlit("5");
        reveal_strlit("6");
        reveal_strlit("7");
        reveal_strlit("8");
        reveal_strlit("9");
    }
    if d == 0 {
        "0"
    } else if d == 1 {
        "1"
    } else if d == 2 {
        "2"
    } else if d == 3 {
        "3"
    } else if d == 4 {
        "4"
    } else if d == 5 {
        "5"
    } else if d == 6 {
        "6"
    } else if d == 7 {
        "7"
    } else if d == 8 {
        "8"
    } else {
        "9"
    }
}

/// Writes `n` in decimal.
pub fn decimal_text(n: u64) -> (r: String)
    ensures
        r@ == decimal(n as nat),
    decreases n,
{
    if n < 10 {
        digit_text(n).to_owned()
    } else {
        let mut s = decimal_text(n / 10);
        s.append(digit_text(n % 10));
        s
    }
}

/// The length of the longest prefix of `s` made of characters of `set`.
pub open spec fn prefix_in(s: Seq<char>, set: Seq<char>) -> nat
    decreases s.len(),
{
    if s.len() > 0 && set.contains(s[0]) {
        1 + prefix_in(s.skip(1), set)
    } else {
        0
    }
}

/// `s` without its leading characters that belong to `set`.
pub open spec fn strip_leading(s: Seq<char>, set: Seq<char>) -> Seq<char> {
    s.skip(prefix_in(s, set) as int)
}

/// What characterises the prefix that `prefix_in` measures.
pub proof fn lemma_prefix_in(s: Seq<char>, set: Seq<char>)
    ensures
        prefix_in(s, set) <= s.len(),
        forall|i: int| 0 <= i < prefix_in(s, set) ==> set.contains(#[trigger] s[i]),
        prefix_in(s, set) < s.len() ==> !set.contains(s[prefix_in(s, set) as int]),
    decreases s.len(),
{
    if s.len() > 0 && set.contains(s[0]) {
        let t = s.skip(1);
        lemma_prefix_in(t, set);
        assert forall|i: int| 0 <= i < prefix_in(s, set) implies set.contains(#[trigger] s[i]) by {
            if i > 0 {
                assert(s[i] == t[i - 1]);
            }
        }
    }
}

/// A length with the characteristic properties is the measured prefix.
pub proof fn lemma_prefix_in_unique(s: Seq<char>, set: Seq<char>, n: nat)
    requires
        n <= s.len(),
        forall|i: int| 0 <= i < n ==> set.contains(#[trigger] s[i]),
        n < s.len() ==> !set.contains(s[n as int]),
    ensures
        prefix_in(s, set) == n,
{
    lemma_prefix_in(s, set);
    let m = prefix_in(s, set);
    if m < n {
        assert(set.contains(s[m as int]));
    } else if n < m {
        assert(set.contains(s[n as int]));
    }
}

/// Whether `c` is one of the characters of `set`.
pub fn char_in(c: char, set: &Vec<char>) -> (r: bool)
    ensures
        r == set@.contains(c),
{
    let mut i: usize = 0;
    while i < set.len()
        invariant
            i <= set@.len(),
            forall|k: int| 0 <= k < i ==> set@[k] != c,
        decreases set@.len() - i,
    {
        if set[i] == c {
            assert(set@[i as int] == c);
            return true;
        }
        i += 1;
    }
    false
}

/// The part of `s` from position `from` up to, and without, position `to`.
pub fn slice_of(s: &Vec<char>, from: usize, to: usize) -> (r: Vec<char>)
    requires
        from <= to <= s@.len(),
    ensures
        r@ == s@.subrange(from as int, to as int),
{
    let mut v: Vec<char> = Vec::new();
    let mut i: usize = from;
    while i < to
        invariant
            from <= i <= to <= s@.len(),
            v@ == s@.subrange(from as int, i as int),
        decreases to - i,
    {
        v.push(s[i]);
        i += 1;
    }
    v
}

} // verus!
