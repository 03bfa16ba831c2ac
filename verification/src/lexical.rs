//! The lexical layer: delimiter search and decimal numbers.
//!
//! Numbers are read by an explicit rule. A length is one or more ASCII digits;
//! leading zeros are accepted and do not change the value. An integer body is
//! an optional sign, `-` or `+`, followed by one or more ASCII digits; leading
//! zeros are accepted, `-0` is zero, and an empty body or a lone sign is
//! rejected. An integer must lie in the range of `i128`.

use vstd::prelude::*;

verus! {

/// `:` ends a length prefix.
pub const COLON: u8 = 0x3A;

/// `e` ends an integer, a list and a dictionary.
pub const END: u8 = 0x65;

/// `-` opens a negative integer body.
pub const MINUS: u8 = 0x2D;

/// `+` may open a non-negative integer body.
pub const PLUS: u8 = 0x2B;

/// Whether `b` is an ASCII digit.
pub open spec fn is_digit(b: u8) -> bool {
    0x30 <= b <= 0x39
}

/// The value of the ASCII digit `b`; zero for any other byte.
pub open spec fn digit(b: u8) -> nat {
    if is_digit(b) {
        (b - 0x30) as nat
    } else {
        0
    }
}

/// Whether every byte of `s` is an ASCII digit.
pub open spec fn all_digits(s: Seq<u8>) -> bool {
    forall|i: int| 0 <= i < s.len() ==> is_digit(#[trigger] s[i])
}

/// The number that the digits of `s` spell in base ten; zero for the empty sequence.
pub open spec fn decimal(s: Seq<u8>) -> nat
    decreases s.len(),
{
    if s.len() == 0 {
        0
    } else {
        10 * decimal(s.drop_last()) + digit(s.last())
    }
}

/// The least index at or after `from` at which `s` holds `b`, or the length
/// of `s` where there is none.
pub open spec fn first_at(s: Seq<u8>, b: u8, from: int) -> int
    decreases s.len() - from,
{
    if from < 0 || from >= s.len() {
        s.len() as int
    } else if s[from] == b {
        from
    } else {
        first_at(s, b, from + 1)
    }
}

/// Whether `s` is an integer body: an optional sign and at least one digit.
pub open spec fn is_signed_decimal(s: Seq<u8>) -> bool {
    if s.len() > 0 && (s[0] == MINUS || s[0] == PLUS) {
        s.len() > 1 && all_digits(s.subrange(1, s.len() as int))
    } else {
        s.len() > 0 && all_digits(s)
    }
}

/// The integer that the body `s` spells.
pub open spec fn signed_value(s: Seq<u8>) -> int {
    if s.len() > 0 && s[0] == MINUS {
        -(decimal(s.subrange(1, s.len() as int)) as int)
    } else if s.len() > 0 && s[0] == PLUS {
        decimal(s.subrange(1, s.len() as int)) as int
    } else {
        decimal(s) as int
    }
}

/// Whether `v` is in the range of `i128`.
pub open spec fn fits_i128(v: int) -> bool {
    i128::MIN <= v <= i128::MAX
}

/// `first_at` lies between `from` and the length, skips only bytes other than
/// `b`, and stops on `b` where it stops inside the sequence.
pub proof fn lemma_first_at(s: Seq<u8>, b: u8, from: int)
    requires
        0 <= from <= s.len(),
    ensures
        from <= first_at(s, b, from) <= s.len(),
        forall|i: int| from <= i < first_at(s, b, from) ==> s[i] != b,
        first_at(s, b, from) < s.len() ==> s[first_at(s, b, from)] == b,
    decreases s.len() - from,
{
    if from < s.len() && s[from] != b {
        lemma_first_at(s, b, from + 1);
    }
}

/// An index that holds `b` with no `b` between `from` and it is `first_at`.
pub proof fn lemma_first_at_is(s: Seq<u8>, b: u8, from: int, at: int)
    requires
        0 <= from <= at <= s.len(),
        forall|i: int| from <= i < at ==> s[i] != b,
        at < s.len() ==> s[at] == b,
    ensures
        first_at(s, b, from) == at,
    decreases at - from,
{
    if from < at {
        lemma_first_at_is(s, b, from + 1, at);
    }
}

/// Appending one byte multiplies the number by ten and adds the byte's digit.
pub proof fn lemma_decimal_push(s: Seq<u8>, b: u8)
    ensures
        decimal(s.push(b)) == 10 * decimal(s) + digit(b),
{
    assert(s.push(b).drop_last() =~= s);
}

/// A prefix spells a number that is no larger than the whole.
pub proof fn lemma_decimal_prefix(s: Seq<u8>, k: int)
    requires
        0 <= k <= s.len(),
    ensures
        decimal(s.subrange(0, k)) <= decimal(s),
    decreases s.len(),
{
    if k == s.len() {
        assert(s.subrange(0, k) =~= s);
    } else {
        let t = s.drop_last();
        lemma_decimal_prefix(t, k);
        assert(t.subrange(0, k) =~= s.subrange(0, k));
    }
}

/// The index of the first `b` at or after `from`, if there is one.
pub fn find_byte(bytes: &Vec<u8>, b: u8, from: usize) -> (r: Option<usize>)
    ensures
        match r {
            Some(i) => i == first_at(bytes@, b, from as int) && i < bytes.len(),
            None => first_at(bytes@, b, from as int) == bytes.len(),
        },
{
    if from >= bytes.len() {
        return None;
    }
    let mut i: usize = from;
    while i < bytes.len()
        invariant
            from <= i <= bytes.len(),
            forall|j: int| from <= j < i ==> bytes@[j] != b,
        decreases bytes.len() - i,
    {
        if bytes[i] == b {
            proof {
                lemma_first_at_is(bytes@, b, from as int, i as int);
            }
            return Some(i);
        }
        i += 1;
    }
    proof {
        lemma_first_at_is(bytes@, b, from as int, i as int);
    }
    None
}

/// Whether `from..to` is a range of `bytes`.
pub open spec fn is_range(bytes: Seq<u8>, from: int, to: int) -> bool {
    0 <= from <= to <= bytes.len()
}

/// Whether `from..to` is a range of `bytes` that holds ASCII digits only.
pub fn digits_only(bytes: &Vec<u8>, from: usize, to: usize) -> (r: bool)
    ensures
        r == (is_range(bytes@, from as int, to as int) && all_digits(
            bytes@.subrange(from as int, to as int),
        )),
{
    if from > to || to > bytes.len() {
        return false;
    }
    let mut i: usize = from;
    while i < to
        invariant
            from <= i <= to <= bytes.len(),
            forall|j: int| from <= j < i ==> is_digit(bytes@[j]),
        decreases to - i,
    {
        if !(0x30 <= bytes[i] && bytes[i] <= 0x39) {
            assert(!is_digit(bytes@.subrange(from as int, to as int)[i - from]));
            return false;
        }
        i += 1;
    }
    assert forall|j: int| 0 <= j < to - from implies is_digit(
        #[trigger] bytes@.subrange(from as int, to as int)[j],
    ) by {
        assert(is_digit(bytes@[from + j]));
    }
    true
}

/// The number that the digits `bytes[from..to)` spell, where it is at most
/// `limit`. `None` where it is larger, where a byte of the range is no
/// digit, and where `from..to` is no range of `bytes`.
pub fn read_decimal(bytes: &Vec<u8>, from: usize, to: usize, limit: u128) -> (r: Option<u128>)
    ensures
        match r {
            Some(n) => {
                &&& is_range(bytes@, from as int, to as int)
                &&& all_digits(bytes@.subrange(from as int, to as int))
                &&& n == decimal(bytes@.subrange(from as int, to as int))
                &&& n <= limit
            },
            None => {
                ||| !is_range(bytes@, from as int, to as int)
                ||| !all_digits(bytes@.subrange(from as int, to as int))
                ||| decimal(bytes@.subrange(from as int, to as int)) > limit
            },
        },
{
    if from > to || to > bytes.len() {
        return None;
    }
    let ghost whole = bytes@.subrange(from as int, to as int);
    let mut acc: u128 = 0;
    let mut i: usize = from;
    while i < to
        invariant
            from <= i <= to <= bytes.len(),
            whole == bytes@.subrange(from as int, to as int),
            forall|j: int| from <= j < i ==> is_digit(bytes@[j]),
            acc == decimal(bytes@.subrange(from as int, i as int)),
            acc <= limit,
        decreases to - i,
    {
        let byte: u8 = bytes[i];
        if !(0x30 <= byte && byte <= 0x39) {
            assert(!is_digit(whole[i - from]));
            return None;
        }
        let ghost before = bytes@.subrange(from as int, i as int);
        let ghost after = bytes@.subrange(from as int, i + 1);
        proof {
            assert(after =~= before.push(byte));
            lemma_decimal_push(before, byte);
            lemma_decimal_prefix(whole, i + 1 - from);
            assert(whole.subrange(0, i + 1 - from) =~= after);
        }
        let d: u128 = (byte - 0x30) as u128;
        if acc > limit / 10 {
            return None;
        }
        let tens: u128 = acc * 10;
        if d > limit - tens {
            return None;
        }
        acc = tens + d;
        i += 1;
    }
    assert(bytes@.subrange(from as int, i as int) =~= whole);
    assert forall|j: int| 0 <= j < whole.len() implies is_digit(#[trigger] whole[j]) by {
        assert(is_digit(bytes@[from + j]));
    }
    Some(acc)
}

/// The integer that the body `bytes[from..to)` spells. `None` where the body
/// is no signed decimal, where the integer is outside the range of `i128`,
/// and where `from..to` is no range of `bytes`.
pub fn read_signed(bytes: &Vec<u8>, from: usize, to: usize) -> (r: Option<i128>)
    ensures
        match r {
            Some(v) => {
                &&& is_range(bytes@, from as int, to as int)
                &&& is_signed_decimal(bytes@.subrange(from as int, to as int))
                &&& v == signed_value(bytes@.subrange(from as int, to as int))
            },
            None => {
                ||| !is_range(bytes@, from as int, to as int)
                ||| !is_signed_decimal(bytes@.subrange(from as int, to as int))
                ||| !fits_i128(signed_value(bytes@.subrange(from as int, to as int)))
            },
        },
{
    if from >= to || to > bytes.len() {
        return None;
    }
    let ghost body = bytes@.subrange(from as int, to as int);
    let first: u8 = bytes[from];
    assert(first == body[0]);
    let signed: bool = first == MINUS || first == PLUS;
    let start: usize = if signed {
        from + 1
    } else {
        from
    };
    if start == to {
        return None;
    }
    let ghost digits = bytes@.subrange(start as int, to as int);
    assert(signed ==> digits =~= body.subrange(1, body.len() as int));
    assert(!signed ==> digits =~= body);
    if first == MINUS {
        match read_decimal(bytes, start, to, 0x8000_0000_0000_0000_0000_0000_0000_0000u128) {
            None => None,
            Some(m) => {
                if m == 0x8000_0000_0000_0000_0000_0000_0000_0000u128 {
                    Some(i128::MIN)
                } else {
                    Some(-(m as i128))
                }
            },
        }
    } else {
        match read_decimal(bytes, start, to, 0x7FFF_FFFF_FFFF_FFFF_FFFF_FFFF_FFFF_FFFFu128) {
            None => None,
            Some(m) => Some(m as i128),
        }
    }
}

} // verus!
