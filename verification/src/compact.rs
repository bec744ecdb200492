//! The compact text form of a handle: the slot and the generation in
//! decimal, with a dot between them, as in `12.3`.

use vstd::prelude::*;
use vstd::string::{StringExecFns, StringSliceAdditionalSpecFns};
use crate::gen_vec::Index;

verus! {

/// Why a text is not the compact form of a handle.
#[derive(Debug, Clone, Copy, PartialEq, Eq, Structural)]
pub enum IndexDecodeError {
    /// There is no dot in the text.
    MissingSeparator,
    /// What stands before the first dot is not a number that fits a slot.
    InvalidIndex,
    /// What stands after the first dot is not a number that fits a
    /// generation.
    InvalidGeneration,
}

/// The byte is a decimal digit.
pub open spec fn is_digit(b: u8) -> bool {
    48 <= b <= 57
}

/// Every byte of the text is a decimal digit.
pub open spec fn all_digits(text: Seq<u8>) -> bool {
    forall|i: int| 0 <= i < text.len() ==> is_digit(#[trigger] text[i])
}

/// The number that a run of decimal digits stands for.
pub open spec fn decimal_value(digits: Seq<u8>) -> nat
    decreases digits.len(),
{
    if digits.len() == 0 {
        0
    } else {
        (decimal_value(digits.drop_last()) * 10 + (digits.last() - 48)) as nat
    }
}

/// The decimal digits of a number, without leading zeros.
pub open spec fn decimal_text(n: nat) -> Seq<u8>
    decreases n,
{
    if n < 10 {
        seq![(48 + n) as u8]
    } else {
        decimal_text(n / 10).push((48 + n % 10) as u8)
    }
}

/// The text without a leading plus sign.
pub open spec fn unsigned_text(text: Seq<u8>) -> Seq<u8> {
    if text.len() > 0 && text[0] == 43 {
        text.drop_first()
    } else {
        text
    }
}

/// The number that a text stands for: one or more decimal digits, with or
/// without a plus sign before them, that make a number up to `max`.
pub open spec fn number_of(text: Seq<u8>, max: nat) -> Option<nat> {
    if unsigned_text(text).len() > 0 && all_digits(unsigned_text(text)) && decimal_value(
        unsigned_text(text),
    ) <= max {
        Some(decimal_value(unsigned_text(text)))
    } else {
        None
    }
}

/// The place of the first dot.
pub open spec fn first_dot(text: Seq<u8>) -> int {
    choose|i: int| 0 <= i < text.len() && text[i] == 46 && forall|j: int| 0 <= j < i ==> text[j] != 46
}

/// The compact form of a handle: slot, dot, generation.
pub open spec fn compact_text(index: Index) -> Seq<u8> {
    decimal_text(index.index as nat) + seq![46u8] + decimal_text(index.generation as nat)
}

/// The handle that a text stands for. The text is split at its first dot;
/// the part before it is the slot, the part after it the generation.
pub open spec fn decode(text: Seq<u8>) -> Result<Index, IndexDecodeError> {
    if !text.contains(46u8) {
        Err(IndexDecodeError::MissingSeparator)
    } else {
        match number_of(text.subrange(0, first_dot(text)), usize::MAX as nat) {
            None => Err(IndexDecodeError::InvalidIndex),
            Some(slot) => match number_of(
                text.subrange(first_dot(text) + 1, text.len() as int),
                u32::MAX as nat,
            ) {
                None => Err(IndexDecodeError::InvalidGeneration),
                Some(generation) => Ok(
                    Index { index: slot as usize, generation: generation as u32 },
                ),
            },
        }
    }
}

/// The text as characters.
pub open spec fn as_chars(text: Seq<u8>) -> Seq<char> {
    Seq::new(text.len(), |i: int| text[i] as char)
}

/// The digits of a number are digits, and stand for that number.
pub proof fn lemma_decimal_text(n: nat)
    ensures
        decimal_text(n).len() > 0,
        all_digits(decimal_text(n)),
        decimal_value(decimal_text(n)) == n,
    decreases n,
{
    if n < 10 {
        let t = decimal_text(n);
        assert(t.drop_last() =~= Seq::<u8>::empty());
        assert(decimal_value(t.drop_last()) == 0);
        assert(t.last() == (48 + n) as u8);
    } else {
        lemma_decimal_text(n / 10);
        let t = decimal_text(n);
        assert(t.drop_last() =~= decimal_text(n / 10));
        assert(t.last() == (48 + n % 10) as u8);
    }
}

/// A run of digits stands for no less than any of its beginnings.
pub proof fn lemma_decimal_value_grows(digits: Seq<u8>, k: int)
    requires
        all_digits(digits),
        0 <= k <= digits.len(),
    ensures
        decimal_value(digits.take(k)) <= decimal_value(digits),
    decreases digits.len(),
{
    if k < digits.len() {
        let front = digits.drop_last();
        assert forall|i: int| 0 <= i < front.len() implies is_digit(#[trigger] front[i]) by {
            assert(front[i] == digits[i]);
        }
        lemma_decimal_value_grows(front, k);
        assert(front.take(k) =~= digits.take(k));
        assert(is_digit(digits[digits.len() - 1]));
    } else {
        assert(digits.take(k) =~= digits);
    }
}

/// The compact form of a handle stands for that handle.
pub proof fn lemma_compact_round_trip(index: Index)
    ensures
        decode(compact_text(index)) == Ok::<Index, IndexDecodeError>(index),
{
    let a = decimal_text(index.index as nat);
    let b = decimal_text(index.generation as nat);
    let text = compact_text(index);
    lemma_decimal_text(index.index as nat);
    lemma_decimal_text(index.generation as nat);
    let p = a.len() as int;
    assert(text[p] == 46);
    assert forall|j: int| 0 <= j < p implies text[j] != 46 by {
        assert(text[j] == a[j]);
        assert(is_digit(a[j]));
    }
    assert(text.contains(46u8));
    let q = first_dot(text);
    if q < p {
        assert(text[q] != 46);
    }
    if q > p {
        assert(text[p] != 46);
    }
    assert(text.subrange(0, p) =~= a);
    assert(text.subrange(p + 1, text.len() as int) =~= b);
    assert(is_digit(a[0]));
    assert(is_digit(b[0]));
}

/// The compact form holds ASCII characters only, so its bytes as UTF-8 are
/// its characters.
pub proof fn lemma_compact_is_ascii(index: Index)
    ensures
        vstd::utf8::is_ascii_chars(as_chars(compact_text(index))),
        vstd::utf8::encode_utf8(as_chars(compact_text(index))) == compact_text(index),
{
    let text = compact_text(index);
    let chars = as_chars(text);
    lemma_decimal_text(index.index as nat);
    lemma_decimal_text(index.generation as nat);
    let a = decimal_text(index.index as nat);
    let b = decimal_text(index.generation as nat);
    assert forall|i: int| 0 <= i < text.len() implies (#[trigger] text[i]) < 128 by {
        if i < a.len() {
            assert(text[i] == a[i]);
            assert(is_digit(a[i]));
        } else if i > a.len() {
            assert(text[i] == b[i - a.len() - 1]);
            assert(is_digit(b[i - a.len() - 1]));
        }
    }
    assert forall|i: int| 0 <= i < chars.len() implies '\0' <= #[trigger] chars[i] <= '\u{7f}' by {
        assert(text[i] < 128);
    }
    vstd::utf8::is_ascii_chars_encode_utf8(chars);
    assert forall|i: int| 0 <= i < text.len() implies vstd::utf8::encode_utf8(chars)[i] == text[i] by {
        assert(text[i] < 128);
        assert(chars[i] as u8 == text[i]);
    }
    assert(vstd::utf8::encode_utf8(chars) =~= text);
}

/// Reads a number from `bytes[from..to]`.
fn parse_number(bytes: &[u8], from: usize, to: usize, max: u64) -> (r: Option<u64>)
    requires
        from <= to <= bytes@.len(),
    ensures
        match r {
            Some(n) => number_of(bytes@.subrange(from as int, to as int), max as nat) == Some(
                n as nat,
            ),
            None => number_of(bytes@.subrange(from as int, to as int), max as nat).is_none(),
        },
{
    let ghost text = bytes@.subrange(from as int, to as int);
    let mut i: usize = from;
    if i < to && bytes[i] == 43 {
        i += 1;
    }
    let start = i;
    let ghost digits = bytes@.subrange(start as int, to as int);
    proof {
        assert(unsigned_text(text) =~= digits);
    }
    if i == to {
        return None;
    }
    let mut acc: u64 = 0;
    proof {
        assert(digits.take(0) =~= Seq::<u8>::empty());
    }
    while i < to
        invariant
            start <= i <= to,
            to <= bytes@.len(),
            digits == bytes@.subrange(start as int, to as int),
            text == bytes@.subrange(from as int, to as int),
            unsigned_text(text) == digits,
            digits.len() > 0,
            acc == decimal_value(digits.take(i - start)),
            all_digits(digits.take(i - start)),
            acc <= max,
        decreases to - i,
    {
        let b = bytes[i];
        let ghost k = i - start;
        proof {
            assert(digits[k] == b);
            assert(digits.take(k + 1).drop_last() =~= digits.take(k));
            assert(digits.take(k + 1).last() == b);
        }
        if b < 48 || b > 57 {
            proof {
                assert(!is_digit(digits[k]));
            }
            return None;
        }
        let d: u64 = (b - 48) as u64;
        if d > max || acc > (max - d) / 10 {
            proof {
                assert(acc * 10 + d > max);
                if all_digits(digits) {
                    assert forall|j: int| 0 <= j < k + 1 implies is_digit(
                        #[trigger] digits.take(k + 1)[j],
                    ) by {}
                    lemma_decimal_value_grows(digits, k + 1);
                }
            }
            return None;
        }
        acc = acc * 10 + d;
        proof {
            assert forall|j: int| 0 <= j < k + 1 implies is_digit(#[trigger] digits.take(k + 1)[j]) by {
                if j < k {
                    assert(digits.take(k)[j] == digits.take(k + 1)[j]);
                }
            }
        }
        i += 1;
    }
    proof {
        assert(digits.take(to - start) =~= digits);
    }
    Some(acc)
}

/// Finds the first dot.
fn find_dot(bytes: &[u8]) -> (r: Option<usize>)
    ensures
        r.is_some() == bytes@.contains(46u8),
        r.is_some() ==> r.unwrap() == first_dot(bytes@) && r.unwrap() < bytes@.len(),
{
    let mut i: usize = 0;
    while i < bytes.len()
        invariant
            i <= bytes@.len(),
            forall|j: int| 0 <= j < i ==> bytes@[j] != 46,
        decreases bytes@.len() - i,
    {
        if bytes[i] == 46 {
            proof {
                let p = first_dot(bytes@);
                if p > i {
                    assert(bytes@[i as int] != 46);
                }
            }
            return Some(i);
        }
        i += 1;
    }
    None
}

/// The text of one decimal digit.
fn digit_str(d: u64) -> (r: &'static str)
    requires
        d < 10,
    ensures
        r@ == seq![(48 + d) as u8 as char],
{
    proof {
        reveal_strlit("0");
        reveal_strlit("1");
        reveal_strlit("2");
        reveal_strlit("3");
        reveal_strlit("4");
        reveal_strlit("5");
        reveal_strlit("6");
        reveal_strlit("7");
        reveal_strlit("8");
        reveal_strlit("9");
    }
    let r = if d == 0 {
        "0"
    } else if d == 1 {
        "1"
    } else if d == 2 {
        "2"
    } else if d == 3 {
        "3"
    } else if d == 4 {
        "4"
    } else if d == 5 {
        "5"
    } else if d == 6 {
        "6"
    } else if d == 7 {
        "7"
    } else if d == 8 {
        "8"
    } else {
        "9"
    };
    proof {
        assert(r@ =~= seq![(48 + d) as u8 as char]);
    }
    r
}

/// Appends the decimal digits of `n`.
fn push_decimal(out: &mut String, n: u64)
    ensures
        final(out)@ == old(out)@ + as_chars(decimal_text(n as nat)),
    decreases n,
{
    if n >= 10 {
        push_decimal(out, n / 10);
    }
    let ghost before = out@;
    out.append(digit_str(n % 10));
    proof {
        if n >= 10 {
            assert(as_chars(decimal_text(n as nat)) =~= as_chars(decimal_text((n / 10) as nat))
                + seq![(48 + n % 10) as u8 as char]);
        } else {
            assert(as_chars(decimal_text(n as nat)) =~= seq![(48 + n % 10) as u8 as char]);
        }
        assert(out@ =~= old(out)@ + as_chars(decimal_text(n as nat)));
    }
}

impl Index {
    /// The compact form of the handle: slot, dot, generation.
    pub fn to_compact_string(&self) -> (r: String)
        ensures
            r@ == as_chars(compact_text(*self)),
            vstd::utf8::encode_utf8(r@) == compact_text(*self),
            decode(vstd::utf8::encode_utf8(r@)) == Ok::<Index, IndexDecodeError>(*self),
    {
        let mut out = String::new();
        push_decimal(&mut out, self.index as u64);
        proof {
            reveal_strlit(".");
        }
        out.append(".");
        push_decimal(&mut out, self.generation as u64);
        proof {
            assert(out@ =~= as_chars(compact_text(*self)));
            lemma_compact_is_ascii(*self);
            lemma_compact_round_trip(*self);
        }
        out
    }

    /// The handle that a text in the compact form stands for. A text
    /// without a dot, or with anything but a number on either side of its
    /// first dot, is rejected.
    pub fn from_compact_str(text: &str) -> (r: Result<Index, IndexDecodeError>)
        ensures
            r == decode(text.spec_bytes()),
    {
        let bytes = text.as_bytes();
        let dot = match find_dot(bytes) {
            Some(dot) => dot,
            None => {
                return Err(IndexDecodeError::MissingSeparator);
            },
        };
        let index = match parse_number(bytes, 0, dot, usize::MAX as u64) {
            Some(n) => n as usize,
            None => {
                return Err(IndexDecodeError::InvalidIndex);
            },
        };
        proof {
            assert(bytes@.len() == bytes.len());
        }
        let generation = match parse_number(bytes, dot + 1, bytes.len(), u32::MAX as u64) {
            Some(n) => n as u32,
            None => {
                return Err(IndexDecodeError::InvalidGeneration);
            },
        };
        Ok(Index { index, generation })
    }
}

} // verus!
