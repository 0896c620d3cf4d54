//! Number literals: sized based literals such as `8'hFF`, unbased ones such
//! as `'0`, and plain decimals.

use crate::text::{chars_of, slice_of};
use vstd::prelude::*;

verus! {

/// The value of `c` as a digit of base `radix`, where it is one.
pub open spec fn digit_value(c: char, radix: nat) -> Option<nat> {
    let v: int = if '0' <= c <= '9' {
        c as int - '0' as int
    } else if 'a' <= c <= 'z' {
        c as int - 'a' as int + 10
    } else if 'A' <= c <= 'Z' {
        c as int - 'A' as int + 10
    } else {
        radix as int
    };
    if v < radix {
        Some(v as nat)
    } else {
        None
    }
}

/// The number that the digits of `s` write down in base `radix`; `None` where
/// `s` holds something that is no digit of that base.
pub open spec fn digits_value(s: Seq<char>, radix: nat) -> Option<nat>
    decreases s.len(),
{
    if s.len() == 0 {
        Some(0)
    } else {
        match (digits_value(s.drop_last(), radix), digit_value(s.last(), radix)) {
            (Some(high), Some(low)) => Some(high * radix + low),
            _ => None,
        }
    }
}

/// The digits of an unsigned number: what follows an optional plus sign.
pub open spec fn after_sign(s: Seq<char>) -> Seq<char> {
    if s.len() > 0 && s[0] == '+' {
        s.skip(1)
    } else {
        s
    }
}

/// The unsigned number that `s` writes down in base `radix`: an optional plus
/// sign and at least one digit, with a value of at most `max`.
pub open spec fn unsigned_value(s: Seq<char>, radix: nat, max: nat) -> Option<nat> {
    if after_sign(s).len() == 0 {
        None
    } else {
        match digits_value(after_sign(s), radix) {
            Some(v) => if v <= max {
                Some(v)
            } else {
                None
            },
            None => None,
        }
    }
}

/// `s` without its underscores, which only group digits.
pub open spec fn without_underscores(s: Seq<char>) -> Seq<char> {
    s.filter(|c: char| c != '_')
}

/// The base that a letter stands for, where it stands for one.
pub open spec fn base_of(letter: char) -> Option<nat> {
    if letter == 'h' || letter == 'H' {
        Some(16)
    } else if letter == 'd' || letter == 'D' {
        Some(10)
    } else if letter == 'o' || letter == 'O' {
        Some(8)
    } else if letter == 'b' || letter == 'B' {
        Some(2)
    } else {
        None
    }
}

/// What follows the letter `s`, which marks a signed literal, where it comes
/// first.
pub open spec fn after_mark(body: Seq<char>) -> Seq<char> {
    if body.len() > 0 && (body[0] == 's' || body[0] == 'S') {
        body.skip(1)
    } else {
        body
    }
}

/// The base of what follows the apostrophe: the one that its base letter stands
/// for, and decimal where it has none.
pub open spec fn literal_radix(body: Seq<char>) -> nat {
    let rest = after_mark(body);
    if rest.len() > 0 && base_of(rest[0]) is Some {
        base_of(rest[0])->0
    } else {
        10
    }
}

/// The digits of what follows the apostrophe: what follows an optional mark of a
/// signed literal and an optional base letter.
pub open spec fn literal_digits(body: Seq<char>) -> Seq<char> {
    let rest = after_mark(body);
    if rest.len() > 0 && base_of(rest[0]) is Some {
        rest.skip(1)
    } else {
        rest
    }
}

/// The position of the first apostrophe of `s`, or its length where it has none.
pub open spec fn apostrophe(s: Seq<char>) -> nat
    decreases s.len(),
{
    if s.len() == 0 || s[0] == '\'' {
        0
    } else {
        1 + apostrophe(s.skip(1))
    }
}

/// The number that the literal `s` writes down, where it can be read and fits in
/// 64 bits.
pub open spec fn literal_number(s: Seq<char>) -> Option<nat> {
    let p = apostrophe(s) as int;
    if p < s.len() {
        let body = s.skip(p + 1);
        unsigned_value(
            without_underscores(literal_digits(body)),
            literal_radix(body),
            u64::MAX as nat,
        )
    } else {
        unsigned_value(without_underscores(s), 10, u64::MAX as nat)
    }
}

/// The width that the literal `s` states, where it states one.
pub open spec fn literal_width(s: Seq<char>) -> Option<nat> {
    let p = apostrophe(s) as int;
    if p < s.len() {
        unsigned_value(s.take(p), 10, u32::MAX as nat)
    } else {
        None
    }
}

/// The value and the width that the literal `s` denotes. What cannot be read
/// counts as the value 0, or as the width 32.
pub open spec fn literal_meaning(s: Seq<char>) -> (nat, nat) {
    (
        match literal_number(s) {
            Some(v) => v,
            None => 0,
        },
        match literal_width(s) {
            Some(w) => w,
            None => 32,
        },
    )
}

/// A place with the characteristic properties is that of the first apostrophe.
pub proof fn lemma_apostrophe(s: Seq<char>, n: nat)
    requires
        n <= s.len(),
        forall|i: int| 0 <= i < n ==> s[i] != '\'',
        n < s.len() ==> s[n as int] == '\'',
    ensures
        apostrophe(s) == n,
    decreases s.len(),
{
    if n > 0 {
        let t = s.skip(1);
        assert forall|i: int| 0 <= i < n - 1 implies t[i] != '\'' by {
            assert(t[i] == s[i + 1]);
        }
        lemma_apostrophe(t, (n - 1) as nat);
    }
}

/// Reading more digits never makes the number smaller.
proof fn lemma_digits_value_prefix(s: Seq<char>, radix: nat, n: nat)
    requires
        n <= s.len(),
        radix >= 1,
    ensures
        digits_value(s, radix) matches Some(v) ==> (digits_value(s.take(n as int), radix) matches Some(
            u,
        ) && u <= v),
    decreases s.len(),
{
    if n == s.len() {
        assert(s.take(n as int) == s);
    } else {
        lemma_digits_value_prefix(s.drop_last(), radix, n);
        assert(s.drop_last().take(n as int) == s.take(n as int));
        if let Some(high) = digits_value(s.drop_last(), radix) {
            assert(high <= high * radix) by (nonlinear_arith)
                requires
                    radix >= 1,
            ;
        }
    }
}

/// The digit that `c` is in base `radix`.
fn digit_of(c: char, radix: u64) -> (r: Option<u64>)
    requires
        2 <= radix <= 16,
    ensures
        r is Some <==> digit_value(c, radix as nat) is Some,
        r matches Some(d) ==> digit_value(c, radix as nat) == Some(d as nat) && d < radix,
{
    let v: u64 = if '0' <= c && c <= '9' {
        (c as u32 - '0' as u32) as u64
    } else if 'a' <= c && c <= 'z' {
        (c as u32 - 'a' as u32) as u64 + 10
    } else if 'A' <= c && c <= 'Z' {
        (c as u32 - 'A' as u32) as u64 + 10
    } else {
        radix
    };
    if v < radix {
        Some(v)
    } else {
        None
    }
}

/// Reads an unsigned number of at most `max`.
fn read_unsigned(s: &Vec<char>, radix: u64, max: u64) -> (r: Option<u64>)
    requires
        2 <= radix <= 16,
    ensures
        r is Some <==> unsigned_value(s@, radix as nat, max as nat) is Some,
        r matches Some(v) ==> unsigned_value(s@, radix as nat, max as nat) == Some(v as nat),
{
    let start: usize = if s.len() > 0 && s[0] == '+' {
        1
    } else {
        0
    };
    let ghost digits = s@.skip(start as int);
    assert(digits == after_sign(s@));
    if s.len() == start {
        return None;
    }
    let mut acc: u64 = 0;
    let mut i: usize = start;
    assert(digits.take(0) == Seq::<char>::empty());
    while i < s.len()
        invariant
            start <= i <= s@.len(),
            2 <= radix <= 16,
            digits == s@.skip(start as int),
            digits == after_sign(s@),
            digits.len() > 0,
            digits_value(digits.take(i - start), radix as nat) == Some(acc as nat),
            acc <= max,
        decreases s@.len() - i,
    {
        let ghost seen = digits.take(i - start);
        let ghost more = digits.take(i + 1 - start);
        assert(more.drop_last() == seen);
        assert(more.last() == s@[i as int]);
        match digit_of(s[i], radix) {
            None => {
                proof {
                    lemma_digits_value_prefix(digits, radix as nat, (i + 1 - start) as nat);
                }
                return None;
            },
            Some(d) => {
                assert(0 <= acc * radix <= 0xffff_ffff_ffff_ffff * 16) by (nonlinear_arith)
                    requires
                        acc <= 0xffff_ffff_ffff_ffff,
                        radix <= 16,
                ;
                let next: u128 = acc as u128 * radix as u128 + d as u128;
                assert(digits_value(more, radix as nat) == Some(next as nat));
                if next > max as u128 {
                    proof {
                        lemma_digits_value_prefix(digits, radix as nat, (i + 1 - start) as nat);
                    }
                    return None;
                }
                acc = next as u64;
            },
        }
        i += 1;
    }
    assert(digits.take(s@.len() - start) == digits);
    Some(acc)
}

/// Drops the underscores of `s`.
fn drop_underscores(s: &Vec<char>) -> (r: Vec<char>)
    ensures
        r@ == without_underscores(s@),
{
    let ghost keep = |c: char| c != '_';
    let mut v: Vec<char> = Vec::new();
    let mut i: usize = 0;
    proof {
        reveal(Seq::filter);
    }
    while i < s.len()
        invariant
            i <= s@.len(),
            keep == (|c: char| c != '_'),
            v@ == s@.take(i as int).filter(keep),
        decreases s@.len() - i,
    {
        proof {
            reveal(Seq::filter);
            assert(s@.take(i + 1).drop_last() == s@.take(i as int));
        }
        if s[i] != '_' {
            v.push(s[i]);
        }
        i += 1;
    }
    assert(s@.take(s@.len() as int) == s@);
    v
}

/// The base that a letter stands for.
fn base_letter(c: char) -> (r: Option<u64>)
    ensures
        r is Some <==> base_of(c) is Some,
        r matches Some(x) ==> base_of(c) == Some(x as nat) && 2 <= x <= 16,
{
    if c == 'h' || c == 'H' {
        Some(16)
    } else if c == 'd' || c == 'D' {
        Some(10)
    } else if c == 'o' || c == 'O' {
        Some(8)
    } else if c == 'b' || c == 'B' {
        Some(2)
    } else {
        None
    }
}

/// Reads a numeric literal (sized base or unsized decimal): the number that it
/// writes down and the width that it states.
pub fn read_number_literal(s: &str) -> (r: (Option<u64>, Option<u32>))
    ensures
        r.0 is Some <==> literal_number(s@) is Some,
        r.0 matches Some(v) ==> literal_number(s@) == Some(v as nat),
        r.1 is Some <==> literal_width(s@) is Some,
        r.1 matches Some(w) ==> literal_width(s@) == Some(w as nat),
{
    let text = chars_of(s);
    let mut p: usize = 0;
    while p < text.len() && text[p] != '\''
        invariant
            p <= text@.len(),
            forall|i: int| 0 <= i < p ==> text@[i] != '\'',
        decreases text@.len() - p,
    {
        p += 1;
    }
    proof {
        lemma_apostrophe(text@, p as nat);
    }
    if p < text.len() {
        let width_part = slice_of(&text, 0, p);
        assert(width_part@ == s@.take(p as int));
        let width: Option<u32> = match read_unsigned(&width_part, 10, 0xffff_ffff) {
            Some(w) => Some(w as u32),
            None => None,
        };
        let body = slice_of(&text, p + 1, text.len());
        assert(body@ == s@.skip(p + 1));
        let marked: usize = if body.len() > 0 && (body[0] == 's' || body[0] == 'S') {
            1
        } else {
            0
        };
        assert(after_mark(body@) =~= body@.skip(marked as int));
        let base: Option<u64> = if marked < body.len() {
            base_letter(body[marked])
        } else {
            None
        };
        let (radix, skipped): (u64, usize) = match base {
            Some(r) => (r, marked + 1),
            None => (10, marked),
        };
        assert(body@.subrange(skipped as int, body@.len() as int) =~= literal_digits(body@));
        let digits = drop_underscores(&slice_of(&body, skipped, body.len()));
        (read_unsigned(&digits, radix, 0xffff_ffff_ffff_ffff), width)
    } else {
        (read_unsigned(&drop_underscores(&text), 10, 0xffff_ffff_ffff_ffff), None)
    }
}

/// Parses numeric literals (sized base and unsized decimal) into `(value, width)`.
pub fn parse_number_literal(s: &str) -> (r: (u64, u32))
    ensures
        (r.0 as nat, r.1 as nat) == literal_meaning(s@),
{
    let (number, width) = read_number_literal(s);
    (
        match number {
            Some(v) => v,
            None => 0,
        },
        match width {
            Some(w) => w,
            None => 32,
        },
    )
}

} // verus!
