//! Big-endian numbers and UTF-8 text in byte strings.
use vstd::prelude::*;
use vstd::utf8::*;
use crate::text::Text;

verus! {

/// The lowest `width` base-256 digits of a number, highest first.
pub open spec fn big_endian(n: nat, width: nat) -> Seq<u8>
    decreases width,
{
    if width == 0 {
        Seq::empty()
    } else {
        big_endian(n / 256, (width - 1) as nat).push((n % 256) as u8)
    }
}

/// The number that base-256 digits spell, highest first.
pub open spec fn big_endian_value(digits: Seq<u8>) -> nat
    decreases digits.len(),
{
    if digits.len() == 0 {
        0
    } else {
        big_endian_value(digits.drop_last()) * 256 + digits.last() as nat
    }
}

/// How many numbers `width` digits can spell.
pub open spec fn limit(width: nat) -> nat
    decreases width,
{
    if width == 0 {
        1
    } else {
        256 * limit((width - 1) as nat)
    }
}

pub proof fn lemma_big_endian_len(n: nat, width: nat)
    ensures
        big_endian(n, width).len() == width,
    decreases width,
{
    if width > 0 {
        lemma_big_endian_len(n / 256, (width - 1) as nat);
    }
}

/// A number that fits is read back as it was written.
pub proof fn lemma_big_endian_round_trip(n: nat, width: nat)
    requires
        n < limit(width),
    ensures
        big_endian_value(big_endian(n, width)) == n,
    decreases width,
{
    if width > 0 {
        lemma_big_endian_round_trip(n / 256, (width - 1) as nat);
        let shorter = big_endian(n / 256, (width - 1) as nat);
        assert(shorter.push((n % 256) as u8).drop_last() =~= shorter);
    }
}

/// Digits are written again as they were read.
pub proof fn lemma_big_endian_digits(digits: Seq<u8>)
    ensures
        big_endian(big_endian_value(digits), digits.len()) == digits,
    decreases digits.len(),
{
    if digits.len() > 0 {
        let before = digits.drop_last();
        lemma_big_endian_digits(before);
        let n = big_endian_value(digits);
        assert(n / 256 == big_endian_value(before));
        assert(n % 256 == digits.last());
        assert(before.push(digits.last()) =~= digits);
    }
}

pub proof fn lemma_big_endian_bound(digits: Seq<u8>)
    ensures
        big_endian_value(digits) < limit(digits.len()),
    decreases digits.len(),
{
    if digits.len() > 0 {
        lemma_big_endian_bound(digits.drop_last());
    }
}

pub proof fn lemma_limits()
    ensures
        limit(2) == 0x1_0000,
        limit(4) == 0x1_0000_0000,
        limit(8) == 0x1_0000_0000_0000_0000,
{
    reveal_with_fuel(limit, 9);
}

/// More digits spell no fewer numbers.
pub proof fn lemma_limit_monotonic(a: nat, b: nat)
    requires
        a <= b,
    ensures
        limit(a) <= limit(b),
    decreases b,
{
    if a < b {
        lemma_limit_monotonic(a, (b - 1) as nat);
    }
}

/// The big-endian form of a number.
pub fn number_bytes(n: u64, width: usize) -> (r: Vec<u8>)
    ensures
        r@ == big_endian(n as nat, width as nat),
    decreases width,
{
    if width == 0 {
        Vec::new()
    } else {
        let mut out = number_bytes(n / 256, width - 1);
        out.push((n % 256) as u8);
        out
    }
}

/// Reads a big-endian number of at most eight digits.
pub fn read_number(bytes: &[u8], at: usize, width: usize) -> (r: u64)
    requires
        width <= 8,
        at + width <= bytes@.len(),
    ensures
        r == big_endian_value(bytes@.subrange(at as int, at + width)),
{
    let end: usize = bytes.len();
    let mut value: u64 = 0;
    let mut i: usize = 0;
    assert(bytes@.subrange(at as int, at + 0) =~= Seq::<u8>::empty());
    while i < width
        invariant
            i <= width <= 8,
            at + width <= end,
            end == bytes@.len(),
            value == big_endian_value(bytes@.subrange(at as int, at + i)),
        decreases width - i,
    {
        let ghost digits = bytes@.subrange(at as int, at + i + 1);
        proof {
            assert(digits.drop_last() =~= bytes@.subrange(at as int, at + i));
            lemma_big_endian_bound(digits);
            lemma_limit_monotonic((i + 1) as nat, 8);
            lemma_limits();
        }
        value = value * 256 + bytes[at + i] as u64;
        i = i + 1;
    }
    value
}

/// The bytes of a range.
pub fn copy_range(bytes: &[u8], from: usize, to: usize) -> (r: Vec<u8>)
    requires
        from <= to <= bytes@.len(),
    ensures
        r@ == bytes@.subrange(from as int, to as int),
{
    let mut out: Vec<u8> = Vec::new();
    let mut i: usize = from;
    while i < to
        invariant
            from <= i <= to <= bytes@.len(),
            out@ =~= bytes@.subrange(from as int, i as int),
        decreases to - i,
    {
        out.push(bytes[i]);
        i = i + 1;
    }
    out
}

/// Appends bytes.
pub fn append(out: &mut Vec<u8>, bytes: &[u8])
    ensures
        final(out)@ == old(out)@ + bytes@,
{
    let mut i: usize = 0;
    assert(out@ =~= old(out)@ + bytes@.take(0));
    while i < bytes.len()
        invariant
            i <= bytes@.len(),
            out@ == old(out)@ + bytes@.take(i as int),
        decreases bytes@.len() - i,
    {
        out.push(bytes[i]);
        assert(bytes@.take(i as int + 1) =~= bytes@.take(i as int).push(bytes@[i as int]));
        assert(out@ =~= old(out)@ + bytes@.take(i as int + 1));
        i = i + 1;
    }
    assert(bytes@.take(i as int) =~= bytes@);
}

/// Some byte is zero.
pub fn has_zero(bytes: &[u8]) -> (r: bool)
    ensures
        r == bytes@.contains(0u8),
{
    let mut i: usize = 0;
    while i < bytes.len()
        invariant
            i <= bytes@.len(),
            forall|j: int| 0 <= j < i ==> bytes@[j] != 0,
        decreases bytes@.len() - i,
    {
        if bytes[i] == 0 {
            assert(bytes@[i as int] == 0);
            return true;
        }
        i = i + 1;
    }
    false
}

/// The text that UTF-8 bytes spell.
pub open spec fn utf8_text(bytes: Seq<u8>) -> Option<Text> {
    if valid_utf8(bytes) {
        Some(decode_utf8(bytes))
    } else {
        None
    }
}

/// `str::from_utf8`: the text whose UTF-8 encoding the bytes are, where they
/// are valid UTF-8, and nothing where they are not.
#[verifier::external_body]
pub(crate) fn text_from_utf8(bytes: &[u8]) -> (r: Option<String>)
    ensures
        r.deep_view() == utf8_text(bytes@),
{
    match std::str::from_utf8(bytes) {
        Ok(valid) => Some(valid.to_owned()),
        Err(_) => None,
    }
}

} // verus!
