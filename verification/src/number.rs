//! Unsigned numbers written in decimal or hexadecimal digits.
//!
//! Note identifiers are shown and read in hexadecimal; the listing limit is
//! read in decimal.

use vstd::prelude::*;
use crate::text::{chars_of, string_of};

verus! {

/// The value of one digit in the given radix: `0`-`9`, then the letters in
/// either case for ten and above.
pub open spec fn digit_value(c: char, radix: nat) -> Option<nat> {
    let v: int = if '0' <= c <= '9' {
        c as int - '0' as int
    } else if 'a' <= c <= 'z' {
        c as int - 'a' as int + 10
    } else if 'A' <= c <= 'Z' {
        c as int - 'A' as int + 10
    } else {
        radix as int
    };
    if v < radix {
        Some(v as nat)
    } else {
        None
    }
}

/// The number that a run of digits denotes, most significant digit first.
/// The empty run denotes zero; a run with a character that is no digit
/// denotes nothing.
pub open spec fn digits_value(s: Seq<char>, radix: nat) -> Option<nat>
    decreases s.len(),
{
    if s.len() == 0 {
        Some(0)
    } else {
        match (digits_value(s.drop_last(), radix), digit_value(s.last(), radix)) {
            (Some(high), Some(low)) => Some(high * radix + low),
            _ => None,
        }
    }
}

/// An unsigned number: one optional `+`, then at least one digit.
pub open spec fn unsigned_value(s: Seq<char>, radix: nat) -> Option<nat> {
    let digits = if s.len() > 0 && s[0] == '+' {
        s.skip(1)
    } else {
        s
    };
    if digits.len() == 0 {
        None
    } else {
        digits_value(digits, radix)
    }
}

/// An unsigned number that fits the machine word.
pub open spec fn usize_value(s: Seq<char>, radix: nat) -> Option<usize> {
    match unsigned_value(s, radix) {
        Some(v) => if v <= usize::MAX {
            Some(v as usize)
        } else {
            None
        },
        None => None,
    }
}

/// A note identifier is written in hexadecimal.
pub open spec fn id_value(s: Seq<char>) -> Option<usize> {
    usize_value(s, 16)
}

/// A prefix of a run of digits is a run of digits, and denotes no more than
/// the whole run.
pub proof fn lemma_digits_prefix(s: Seq<char>, radix: nat, k: int)
    requires
        0 <= k <= s.len(),
        digits_value(s, radix) is Some,
    ensures
        digits_value(s.take(k), radix) is Some,
        digits_value(s.take(k), radix)->0 <= digits_value(s, radix)->0,
        k < s.len() ==> digit_value(s[k], radix) is Some,
    decreases s.len(),
{
    if k == s.len() {
        assert(s.take(k) =~= s);
    } else {
        let init = s.drop_last();
        assert(init.take(k) =~= s.take(k));
        if k < init.len() {
            assert(init[k] == s[k]);
        }
        lemma_digits_prefix(init, radix, k);
        let high = digits_value(init, radix)->0;
        assert(high <= high * radix) by (nonlinear_arith)
            requires
                radix >= 1,
        {
        }
    }
}

/// The upper-case hexadecimal digit for a value below sixteen.
pub open spec fn hex_char(d: nat) -> char {
    if d < 10 {
        ('0' as int + d) as char
    } else {
        ('A' as int + d - 10) as char
    }
}

/// The last `width` hexadecimal digits of `v`, most significant first,
/// with leading zeros.
pub open spec fn hex_digits(v: nat, width: nat) -> Seq<char>
    decreases width,
{
    if width == 0 {
        Seq::empty()
    } else {
        hex_digits(v / 16, (width - 1) as nat).push(hex_char(v % 16))
    }
}

/// Whether `v` can be written in `width` hexadecimal digits.
pub open spec fn fits_hex(v: nat, width: nat) -> bool
    decreases width,
{
    if width == 0 {
        v == 0
    } else {
        fits_hex(v / 16, (width - 1) as nat)
    }
}

/// The width in which identifiers are written.
pub const ID_WIDTH: usize = 16;

/// How an identifier is shown: sixteen upper-case hexadecimal digits.
pub open spec fn id_text(id: usize) -> Seq<char> {
    hex_digits(id as nat, ID_WIDTH as nat)
}

pub proof fn lemma_hex_digits_len(v: nat, width: nat)
    ensures
        hex_digits(v, width).len() == width,
    decreases width,
{
    if width > 0 {
        lemma_hex_digits_len(v / 16, (width - 1) as nat);
    }
}

/// Reading back the digits of a number that fits the width gives the number.
pub proof fn lemma_hex_digits_value(v: nat, width: nat)
    requires
        fits_hex(v, width),
    ensures
        digits_value(hex_digits(v, width), 16) == Some(v),
        forall|i: int| 0 <= i < width ==> #[trigger] hex_digits(v, width)[i] != '+',
    decreases width,
{
    lemma_hex_digits_len(v, width);
    if width > 0 {
        let init = hex_digits(v / 16, (width - 1) as nat);
        lemma_hex_digits_value(v / 16, (width - 1) as nat);
        lemma_hex_digits_len(v / 16, (width - 1) as nat);
        let all = hex_digits(v, width);
        assert(all.drop_last() =~= init);
        assert(all.last() == hex_char(v % 16));
        assert(digit_value(hex_char(v % 16), 16) == Some(v % 16));
        assert forall|i: int| 0 <= i < width implies #[trigger] all[i] != '+' by {
            if i < width - 1 {
                assert(all[i] == init[i]);
            }
        }
    }
}

/// An identifier that is written out and read back is the same identifier.
pub proof fn lemma_id_round_trip(id: usize)
    ensures
        id_value(id_text(id)) == Some(id),
{
    assert(fits_hex(id as nat, 16)) by {
        reveal_with_fuel(fits_hex, 17);
    }
    lemma_hex_digits_value(id as nat, 16);
    lemma_hex_digits_len(id as nat, 16);
    assert(id_text(id)[0] != '+');
}

fn hex_digit(d: usize) -> (c: char)
    requires
        d < 16,
    ensures
        c == hex_char(d as nat),
{
    let b: u8 = if d < 10 {
        48 + d as u8
    } else {
        55 + d as u8
    };
    b as char
}

/// Writes an identifier as sixteen upper-case hexadecimal digits.
pub fn format_id(id: usize) -> (s: String)
    ensures
        s@ == id_text(id),
{
    let mut buf: Vec<char> = Vec::new();
    let mut n: usize = 0;
    while n < ID_WIDTH
        invariant
            n <= ID_WIDTH,
            buf.len() == n,
        decreases ID_WIDTH - n,
    {
        buf.push('0');
        n += 1;
    }
    let mut v: usize = id;
    let mut k: usize = 0;
    assert(buf@.skip(16) =~= Seq::<char>::empty());
    while k < ID_WIDTH
        invariant
            k <= ID_WIDTH,
            buf.len() == ID_WIDTH,
            id_text(id) == hex_digits(v as nat, (ID_WIDTH - k) as nat) + buf@.skip(ID_WIDTH - k),
        decreases ID_WIDTH - k,
    {
        let c = hex_digit(v % 16);
        let ghost before = buf@;
        buf.set(ID_WIDTH - 1 - k, c);
        proof {
            let w = (ID_WIDTH - k) as nat;
            assert(buf@.skip(ID_WIDTH - 1 - k) =~= seq![c] + before.skip(ID_WIDTH - k));
            assert(hex_digits(v as nat, w) == hex_digits(v as nat / 16, (w - 1) as nat).push(c));
            assert(hex_digits(v as nat / 16, (w - 1) as nat).push(c) + before.skip(ID_WIDTH - k)
                =~= hex_digits(v as nat / 16, (w - 1) as nat) + (seq![c] + before.skip(
                ID_WIDTH - k,
            )));
        }
        v = v / 16;
        k += 1;
    }
    assert(buf@.skip(0) =~= buf@);
    string_of(&buf)
}

fn digit_of(c: char, radix: u32) -> (r: Option<u32>)
    requires
        2 <= radix <= 36,
    ensures
        r matches Some(d) ==> digit_value(c, radix as nat) == Some(d as nat),
        r is None ==> digit_value(c, radix as nat) is None,
{
    let v: u32 = if '0' <= c && c <= '9' {
        c as u32 - '0' as u32
    } else if 'a' <= c && c <= 'z' {
        c as u32 - 'a' as u32 + 10
    } else if 'A' <= c && c <= 'Z' {
        c as u32 - 'A' as u32 + 10
    } else {
        radix
    };
    if v < radix {
        Some(v)
    } else {
        None
    }
}

/// Reads an unsigned number in the given radix. Nothing but one optional
/// leading `+` and digits is accepted, and the value must fit in `usize`.
pub fn parse_unsigned(s: &str, radix: u32) -> (r: Option<usize>)
    requires
        2 <= radix <= 36,
    ensures
        r == usize_value(s@, radix as nat),
{
    let chars = chars_of(s);
    let start: usize = if chars.len() > 0 && chars[0] == '+' {
        1
    } else {
        0
    };
    if start == chars.len() {
        return None;
    }
    let ghost digits = chars@.skip(start as int);
    let mut acc: usize = 0;
    let mut i: usize = start;
    assert(digits.take(0) =~= Seq::<char>::empty());
    while i < chars.len()
        invariant
            2 <= radix <= 36,
            start <= i <= chars.len(),
            start < chars.len(),
            chars@ == s@,
            start == (if s@.len() > 0 && s@[0] == '+' {
                1int
            } else {
                0int
            }),
            digits == chars@.skip(start as int),
            digits_value(digits.take(i - start), radix as nat) == Some(acc as nat),
        decreases chars.len() - i,
    {
        let ghost k = i - start;
        proof {
            assert(digits.take(k + 1).drop_last() =~= digits.take(k));
            assert(digits.take(k + 1).last() == chars@[i as int]);
            assert(digits[k] == chars@[i as int]);
            assert(s@.skip(0) =~= s@);
            if digits_value(digits, radix as nat) is Some {
                lemma_digits_prefix(digits, radix as nat, k);
                lemma_digits_prefix(digits, radix as nat, k + 1);
            }
        }
        let d = match digit_of(chars[i], radix) {
            Some(d) => d,
            None => {
                return None;
            },
        };
        let shifted = match acc.checked_mul(radix as usize) {
            Some(v) => v,
            None => {
                return None;
            },
        };
        acc = match shifted.checked_add(d as usize) {
            Some(v) => v,
            None => {
                return None;
            },
        };
        i += 1;
    }
    assert(digits.take(i - start) =~= digits);
    assert(s@.skip(0) =~= s@);
    Some(acc)
}

/// Reads a note identifier: hexadecimal digits in either case.
pub fn parse_id(s: &str) -> (r: Option<usize>)
    ensures
        r == id_value(s@),
{
    parse_unsigned(s, 16)
}

} // verus!
