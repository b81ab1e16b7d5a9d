use vstd::prelude::*;
use vstd::utf8::{decode_utf8, valid_utf8};

verus! {

/// The digit `0`.
pub const DIGIT_ZERO: u8 = 48;

/// The digit `9`.
pub const DIGIT_NINE: u8 = 57;

/// A leading plus sign.
pub const PLUS: u8 = 43;

/// A leading minus sign.
pub const MINUS: u8 = 45;

/// Why a field is not a valid number.
#[derive(Clone, Copy, Debug, PartialEq, Eq, Structural)]
pub enum IntErrorCause {
    /// The field is empty.
    Empty,
    /// The field holds a byte that is not a decimal digit.
    InvalidDigit,
    /// The number does not fit in a `usize`.
    PosOverflow,
    /// The number is zero where zero is not allowed.
    Zero,
}

/// The pieces of `s` between the occurrences of `sep`: one more than there
/// are separators, empty pieces included.
pub open spec fn split_bytes(s: Seq<u8>, sep: u8) -> Seq<Seq<u8>>
    decreases s.len(),
{
    if s.len() == 0 {
        seq![Seq::empty()]
    } else {
        let p = split_bytes(s.drop_last(), sep);
        if s.last() == sep {
            p.push(Seq::empty())
        } else {
            p.update(p.len() - 1, p.last().push(s.last()))
        }
    }
}

/// Splitting always yields at least one piece.
pub proof fn lemma_split_bytes_nonempty(s: Seq<u8>, sep: u8)
    ensures
        split_bytes(s, sep).len() >= 1,
    decreases s.len(),
{
    if s.len() > 0 {
        lemma_split_bytes_nonempty(s.drop_last(), sep);
    }
}

/// A decimal digit.
pub open spec fn is_digit(b: u8) -> bool {
    DIGIT_ZERO <= b <= DIGIT_NINE
}

/// The decimal value of `d[i..]` read after the value `acc` of what precedes
/// it, digit by digit, failing on the first byte that is no digit or makes
/// the value exceed `usize::MAX`.
pub open spec fn digits_value(d: Seq<u8>, i: int, acc: nat) -> Result<nat, IntErrorCause>
    decreases d.len() - i,
{
    if i < 0 || i >= d.len() {
        Ok(acc)
    } else if !is_digit(d[i]) {
        Err(IntErrorCause::InvalidDigit)
    } else if acc * 10 + (d[i] - DIGIT_ZERO) > usize::MAX {
        Err(IntErrorCause::PosOverflow)
    } else {
        digits_value(d, i + 1, (acc * 10 + (d[i] - DIGIT_ZERO)) as nat)
    }
}

/// A non-negative decimal integer, as `usize::from_str` reads it: an optional
/// leading `+`, then one or more digits.
pub open spec fn parse_usize_spec(b: Seq<u8>) -> Result<usize, IntErrorCause> {
    let r = if b.len() == 0 {
        Err(IntErrorCause::Empty)
    } else if b.len() == 1 && (b[0] == PLUS || b[0] == MINUS) {
        Err(IntErrorCause::InvalidDigit)
    } else if b[0] == PLUS {
        digits_value(b, 1, 0)
    } else {
        digits_value(b, 0, 0)
    };
    match r {
        Ok(v) => Ok(v as usize),
        Err(e) => Err(e),
    }
}

/// A positive decimal integer: as `parse_usize_spec`, with zero refused.
pub open spec fn parse_nonzero_spec(b: Seq<u8>) -> Result<usize, IntErrorCause> {
    match parse_usize_spec(b) {
        Ok(v) => if v == 0 {
            Err(IntErrorCause::Zero)
        } else {
            Ok(v)
        },
        Err(e) => Err(e),
    }
}

proof fn lemma_digits_value_bound(d: Seq<u8>, i: int, acc: nat)
    requires
        acc <= usize::MAX,
    ensures
        digits_value(d, i, acc) matches Ok(v) ==> v <= usize::MAX,
    decreases d.len() - i,
{
    if 0 <= i < d.len() && is_digit(d[i]) && acc * 10 + (d[i] - DIGIT_ZERO) <= usize::MAX {
        lemma_digits_value_bound(d, i + 1, (acc * 10 + (d[i] - DIGIT_ZERO)) as nat);
    }
}

/// Reads a non-negative decimal integer (see `parse_usize_spec`).
pub fn parse_usize(b: &[u8]) -> (r: Result<usize, IntErrorCause>)
    ensures
        r == parse_usize_spec(b@),
{
    if b.len() == 0 {
        return Err(IntErrorCause::Empty);
    }
    if b.len() == 1 && (b[0] == PLUS || b[0] == MINUS) {
        return Err(IntErrorCause::InvalidDigit);
    }
    let mut i: usize = if b[0] == PLUS {
        1
    } else {
        0
    };
    let ghost start = i as int;
    let mut acc: usize = 0;
    while i < b.len()
        invariant
            start <= i <= b@.len(),
            b@.len() >= 1,
            !(b@.len() == 1 && (b@[0] == PLUS || b@[0] == MINUS)),
            start == if b@[0] == PLUS {
                1int
            } else {
                0int
            },
            digits_value(b@, start, 0) == digits_value(b@, i as int, acc as nat),
        decreases b@.len() - i,
    {
        let c = b[i];
        if c < DIGIT_ZERO || c > DIGIT_NINE {
            assert(digits_value(b@, i as int, acc as nat) == Err::<nat, IntErrorCause>(
                IntErrorCause::InvalidDigit,
            ));
            assert(digits_value(b@, start, 0) == Err::<nat, IntErrorCause>(
                IntErrorCause::InvalidDigit,
            ));
            return Err(IntErrorCause::InvalidDigit);
        }
        let step = match acc.checked_mul(10) {
            Some(m) => m.checked_add((c - DIGIT_ZERO) as usize),
            None => None,
        };
        match step {
            Some(v) => {
                acc = v;
            },
            None => {
                assert(digits_value(b@, i as int, acc as nat) == Err::<nat, IntErrorCause>(
                    IntErrorCause::PosOverflow,
                ));
                return Err(IntErrorCause::PosOverflow);
            },
        }
        i = i + 1;
    }
    assert(digits_value(b@, i as int, acc as nat) == Ok::<nat, IntErrorCause>(acc as nat));
    Ok(acc)
}

/// Reads a positive decimal integer (see `parse_nonzero_spec`).
pub fn parse_nonzero(b: &[u8]) -> (r: Result<usize, IntErrorCause>)
    ensures
        r == parse_nonzero_spec(b@),
{
    match parse_usize(b) {
        Ok(v) => if v == 0 {
            Err(IntErrorCause::Zero)
        } else {
            Ok(v)
        },
        Err(e) => Err(e),
    }
}

/// Cuts `s` at every occurrence of `sep` (see `split_bytes`).
pub fn split_on<'b>(s: &'b [u8], sep: u8) -> (r: Vec<&'b [u8]>)
    ensures
        r@.len() == split_bytes(s@, sep).len(),
        forall|j: int| 0 <= j < r@.len() ==> (#[trigger] r@[j])@ == split_bytes(s@, sep)[j],
{
    let mut done: Vec<&'b [u8]> = Vec::new();
    let mut cur: usize = 0;
    let mut i: usize = 0;
    assert(s@.take(0) =~= Seq::<u8>::empty());
    while i < s.len()
        invariant
            cur <= i <= s@.len(),
            split_bytes(s@.take(i as int), sep).len() == done@.len() + 1,
            forall|j: int|
                0 <= j < done@.len() ==> (#[trigger] done@[j])@ == split_bytes(
                    s@.take(i as int),
                    sep,
                )[j],
            split_bytes(s@.take(i as int), sep).last() == s@.subrange(cur as int, i as int),
        decreases s@.len() - i,
    {
        proof {
            assert(s@.take(i + 1).drop_last() =~= s@.take(i as int));
            assert(s@.take(i + 1).last() == s@[i as int]);
        }
        if s[i] == sep {
            done.push(&s[cur..i]);
            cur = i + 1;
            proof {
                assert(s@.subrange(cur as int, i + 1) =~= Seq::<u8>::empty());
            }
        } else {
            proof {
                assert(s@.subrange(cur as int, i + 1) =~= s@.subrange(cur as int, i as int).push(
                    s@[i as int],
                ));
            }
        }
        i = i + 1;
    }
    done.push(&s[cur..s.len()]);
    assert(s@.take(s@.len() as int) =~= s@);
    done
}

/// Relies on `String::from_utf8`: it accepts exactly the valid UTF-8 byte
/// sequences and then holds the characters they encode.
#[verifier::external_body]
pub(crate) fn utf8_to_string(v: Vec<u8>) -> (r: Option<String>)
    ensures
        r is Some <==> valid_utf8(v@),
        r matches Some(s) ==> s@ == decode_utf8(v@),
{
    String::from_utf8(v).ok()
}

} // verus!
