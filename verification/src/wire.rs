//! Byte-level building blocks of the wire format: little-endian integers and
//! the compact length prefix that stands before every text field.

use vstd::prelude::*;

verus! {

/// Why a byte string is not the encoding of an event.
#[derive(Clone, Copy, Debug, PartialEq, Eq, Structural)]
pub enum FormatError {
    /// The input ends before the field that is being read does.
    Truncated,
    /// The action tag is none that this library knows.
    UnknownAction,
    /// A length prefix is written in more bytes than its value needs.
    NonMinimalLength,
    /// A text field does not hold valid UTF-8.
    InvalidText,
    /// Bytes are left over after the last field.
    TrailingBytes,
}

/// 256 to the power `width`: the number of values that `width` bytes can hold.
pub open spec fn radix(width: nat) -> nat
    decreases width,
{
    if width == 0 {
        1
    } else {
        256 * radix((width - 1) as nat)
    }
}

/// The `width` low-order bytes of `value`, least significant first.
pub open spec fn le_bytes(value: nat, width: nat) -> Seq<u8>
    decreases width,
{
    if width == 0 {
        Seq::empty()
    } else {
        seq![(value % 256) as u8] + le_bytes(value / 256, (width - 1) as nat)
    }
}

/// The number that `bytes` spell, least significant byte first.
pub open spec fn le_value(bytes: Seq<u8>) -> nat
    decreases bytes.len(),
{
    if bytes.len() == 0 {
        0
    } else {
        bytes[0] as nat + 256 * le_value(bytes.drop_first())
    }
}

/// The numbers of values that one, two, four and eight bytes can hold.
pub proof fn lemma_radix_values()
    ensures
        radix(0) == 1,
        radix(1) == 0x100,
        radix(2) == 0x1_0000,
        radix(4) == 0x1_0000_0000,
        radix(8) == 0x1_0000_0000_0000_0000,
{
    reveal_with_fuel(radix, 9);
}

/// A number written in `width` bytes takes `width` bytes.
pub proof fn lemma_le_bytes_len(value: nat, width: nat)
    ensures
        le_bytes(value, width).len() == width,
    decreases width,
{
    if width > 0 {
        lemma_le_bytes_len(value / 256, (width - 1) as nat);
    }
}

/// Bytes spell a number below the number of values that they can hold.
pub proof fn lemma_le_value_bound(bytes: Seq<u8>)
    ensures
        le_value(bytes) < radix(bytes.len()),
    decreases bytes.len(),
{
    if bytes.len() > 0 {
        lemma_le_value_bound(bytes.drop_first());
    }
}

/// Reading back what was written gives the number that was written, as long
/// as it fits in the width.
pub proof fn lemma_le_value_of_bytes(value: nat, width: nat)
    requires
        value < radix(width),
    ensures
        le_value(le_bytes(value, width)) == value,
    decreases width,
{
    if width > 0 {
        let rest = le_bytes(value / 256, (width - 1) as nat);
        lemma_le_value_of_bytes(value / 256, (width - 1) as nat);
        assert(le_bytes(value, width).drop_first() =~= rest);
    }
}

/// Writing what was read gives the bytes that were read.
pub proof fn lemma_le_bytes_of_value(bytes: Seq<u8>)
    ensures
        le_bytes(le_value(bytes), bytes.len()) == bytes,
    decreases bytes.len(),
{
    if bytes.len() > 0 {
        let rest = bytes.drop_first();
        lemma_le_bytes_of_value(rest);
        assert(le_value(bytes) / 256 == le_value(rest));
        assert(le_value(bytes) % 256 == bytes[0] as nat);
        assert(le_bytes(le_value(bytes), bytes.len()) =~= bytes);
    } else {
        assert(le_bytes(le_value(bytes), bytes.len()) =~= bytes);
    }
}

/// Appends the `width` low-order bytes of `value` to `out`, least significant
/// first.
pub fn push_le(out: &mut Vec<u8>, value: u64, width: usize)
    ensures
        final(out)@ == old(out)@ + le_bytes(value as nat, width as nat),
{
    let mut rest: u64 = value;
    let mut done: usize = 0;
    while done < width
        invariant
            done <= width,
            old(out)@ + le_bytes(value as nat, width as nat) == out@ + le_bytes(
                rest as nat,
                (width - done) as nat,
            ),
        decreases width - done,
    {
        let low: u8 = (rest % 256) as u8;
        proof {
            let tail = le_bytes((rest / 256) as nat, (width - done - 1) as nat);
            assert(le_bytes(rest as nat, (width - done) as nat) == seq![low] + tail);
            assert(out@ + (seq![low] + tail) =~= out@.push(low) + tail);
        }
        out.push(low);
        rest = rest / 256;
        done = done + 1;
    }
    assert(le_bytes(rest as nat, 0) =~= Seq::<u8>::empty());
    assert(out@ + Seq::<u8>::empty() =~= out@);
}

/// Reads the `width` bytes of `bytes` that start at `pos` as one number,
/// least significant byte first.
pub fn read_le(bytes: &[u8], pos: usize, width: usize) -> (value: u64)
    requires
        width <= 8,
        pos + width <= bytes@.len(),
    ensures
        value as nat == le_value(bytes@.subrange(pos as int, pos + width)),
{
    let total: usize = bytes.len();
    let end: usize = pos + width;
    let mut value: u64 = 0;
    let mut left: usize = width;
    while left > 0
        invariant
            left <= width <= 8,
            end == pos + width,
            end <= total == bytes@.len(),
            value as nat == le_value(bytes@.subrange(pos + left, end as int)),
        decreases left,
    {
        proof {
            let lower = bytes@.subrange(pos + left - 1, end as int);
            let upper = bytes@.subrange(pos + left, end as int);
            assert(lower.drop_first() =~= upper);
            lemma_le_value_bound(upper);
            lemma_le_value_bound(lower);
            lemma_radix_step((width - left) as nat);
        }
        left = left - 1;
        value = value * 256 + bytes[pos + left] as u64;
    }
    value
}

/// Up to eight bytes never spell more than sixty-four bits.
pub proof fn lemma_radix_step(width: nat)
    requires
        width < 8,
    ensures
        radix(width + 1) == 256 * radix(width),
        radix(width + 1) <= 0x1_0000_0000_0000_0000,
{
    reveal_with_fuel(radix, 9);
}

/// The length prefix of a field of `n` bytes: the shortest of four forms.
///
/// Up to 252 the prefix is the number itself, in one byte. A longer field
/// has a marker byte (`0xFD`, `0xFE`, `0xFF`) and then the number in two,
/// four or eight bytes, least significant first.
pub open spec fn length_prefix(n: nat) -> Seq<u8> {
    if n < 0xFD {
        seq![n as u8]
    } else if n <= 0xFFFF {
        seq![0xFDu8] + le_bytes(n, 2)
    } else if n <= 0xFFFF_FFFF {
        seq![0xFEu8] + le_bytes(n, 4)
    } else {
        seq![0xFFu8] + le_bytes(n, 8)
    }
}

/// How many bytes follow the marker byte `first` in a length prefix.
pub open spec fn prefix_width(first: u8) -> nat {
    if first == 0xFF {
        8
    } else if first == 0xFE {
        4
    } else if first == 0xFD {
        2
    } else {
        0
    }
}

/// The smallest number that a prefix with marker byte `first` may carry.
pub open spec fn prefix_floor(first: u8) -> nat {
    if first == 0xFF {
        0x1_0000_0000
    } else if first == 0xFE {
        0x1_0000
    } else if first == 0xFD {
        0xFD
    } else {
        0
    }
}

/// Reads a length prefix at `pos`: the number, and where the prefix ends.
pub open spec fn parse_length(bytes: Seq<u8>, pos: int) -> Result<(nat, int), FormatError> {
    if !(0 <= pos < bytes.len()) {
        Err(FormatError::Truncated)
    } else {
        let first = bytes[pos];
        let width = prefix_width(first);
        if width == 0 {
            Ok((first as nat, pos + 1))
        } else if bytes.len() < pos + 1 + width {
            Err(FormatError::Truncated)
        } else {
            let n = le_value(bytes.subrange(pos + 1, pos + 1 + width));
            if n < prefix_floor(first) {
                Err(FormatError::NonMinimalLength)
            } else {
                Ok((n, pos + 1 + width))
            }
        }
    }
}

/// Reading a prefix where one was written gives the number back, and ends
/// where the prefix ends.
pub proof fn lemma_parse_length_of_prefix(head: Seq<u8>, n: nat, tail: Seq<u8>)
    requires
        n <= u64::MAX,
    ensures
        parse_length(head + length_prefix(n) + tail, head.len() as int) == Ok::<
            (nat, int),
            FormatError,
        >((n, (head.len() + length_prefix(n).len()) as int)),
{
    let all = head + length_prefix(n) + tail;
    let pos = head.len() as int;
    lemma_radix_values();
    if n < 0xFD {
        assert(all[pos] == n as u8);
    } else {
        let width: nat = if n <= 0xFFFF {
            2
        } else if n <= 0xFFFF_FFFF {
            4
        } else {
            8
        };
        lemma_le_bytes_len(n, width);
        lemma_le_value_of_bytes(n, width);
        assert(all[pos] == length_prefix(n)[0]);
        assert(all.subrange(pos + 1, pos + 1 + width) =~= le_bytes(n, width));
    }
}

/// Whatever reads as a length prefix is the prefix of the number read:
/// no number has two prefixes.
pub proof fn lemma_parse_length_is_prefix(bytes: Seq<u8>, pos: int)
    requires
        parse_length(bytes, pos) is Ok,
    ensures
        ({
            let (n, next) = parse_length(bytes, pos)->Ok_0;
            &&& pos < next <= bytes.len()
            &&& n <= u64::MAX
            &&& bytes.subrange(pos, next) == length_prefix(n)
        }),
{
    let (n, next) = parse_length(bytes, pos)->Ok_0;
    let first = bytes[pos];
    let width = prefix_width(first);
    lemma_radix_values();
    if width == 0 {
        assert(bytes.subrange(pos, next) =~= length_prefix(n));
    } else {
        let body = bytes.subrange(pos + 1, pos + 1 + width);
        lemma_le_value_bound(body);
        lemma_le_bytes_of_value(body);
        assert(bytes.subrange(pos, next) =~= seq![first] + body);
    }
}

/// Appends the length prefix of a field of `n` bytes to `out`.
pub fn push_length(out: &mut Vec<u8>, n: u64)
    ensures
        final(out)@ == old(out)@ + length_prefix(n as nat),
{
    if n < 0xFD {
        out.push(n as u8);
        assert(out@ =~= old(out)@ + length_prefix(n as nat));
    } else {
        let (marker, width): (u8, usize) = if n <= 0xFFFF {
            (0xFD, 2)
        } else if n <= 0xFFFF_FFFF {
            (0xFE, 4)
        } else {
            (0xFF, 8)
        };
        out.push(marker);
        push_le(out, n, width);
        assert(out@ =~= old(out)@ + length_prefix(n as nat));
    }
}

/// Reads the length prefix that starts at `pos`. Gives the number and the
/// position behind the prefix, or says why there is no prefix there.
pub fn read_length(bytes: &[u8], pos: usize) -> (r: Result<(u64, usize), FormatError>)
    ensures
        match r {
            Ok((n, next)) => parse_length(bytes@, pos as int) == Ok::<(nat, int), FormatError>(
                (n as nat, next as int),
            ),
            Err(e) => parse_length(bytes@, pos as int) == Err::<(nat, int), FormatError>(e),
        },
{
    if pos >= bytes.len() {
        return Err(FormatError::Truncated);
    }
    let first: u8 = bytes[pos];
    let (width, floor): (usize, u64) = if first == 0xFF {
        (8, 0x1_0000_0000)
    } else if first == 0xFE {
        (4, 0x1_0000)
    } else if first == 0xFD {
        (2, 0xFD)
    } else {
        return Ok((first as u64, pos + 1));
    };
    if bytes.len() - pos - 1 < width {
        return Err(FormatError::Truncated);
    }
    let n: u64 = read_le(bytes, pos + 1, width);
    if n < floor {
        Err(FormatError::NonMinimalLength)
    } else {
        Ok((n, pos + 1 + width))
    }
}

} // verus!
