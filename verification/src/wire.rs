//! Fixed-width big-endian numbers, unsigned and two's complement.

use vstd::prelude::*;

verus! {

/// The number of values that `width` bytes can tell apart: 256 to the power `width`.
pub open spec fn span(width: nat) -> nat
    decreases width,
{
    if width == 0 {
        1
    } else {
        256 * span((width - 1) as nat)
    }
}

/// The `width` low-order bytes of `n`, most significant first.
pub open spec fn be_bytes(n: nat, width: nat) -> Seq<u8>
    decreases width,
{
    if width == 0 {
        Seq::empty()
    } else {
        be_bytes(n / 256, (width - 1) as nat).push((n % 256) as u8)
    }
}

/// The number that `bytes` spell, most significant byte first.
pub open spec fn be_value(bytes: Seq<u8>) -> nat
    decreases bytes.len(),
{
    if bytes.len() == 0 {
        0
    } else {
        be_value(bytes.drop_last()) * 256 + bytes.last() as nat
    }
}

/// Whether the signed number `i` fits in `width` bytes of two's complement.
pub open spec fn fits_signed(i: int, width: nat) -> bool {
    -(span(width) as int) <= 2 * i < span(width) as int
}

/// The unsigned number whose `width` bytes are the two's complement of `i`.
pub open spec fn twos(i: int, width: nat) -> nat {
    if i >= 0 {
        i as nat
    } else {
        (i + span(width)) as nat
    }
}

/// The signed number that the `width`-byte unsigned number `n` stands for.
pub open spec fn untwos(n: nat, width: nat) -> int {
    if 2 * n >= span(width) {
        n - span(width)
    } else {
        n as int
    }
}

pub proof fn lemma_span_values()
    ensures
        span(0) == 1,
        span(1) == 0x100,
        span(2) == 0x1_0000,
        span(3) == 0x100_0000,
        span(4) == 0x1_0000_0000,
        span(5) == 0x100_0000_0000,
        span(6) == 0x1_0000_0000_0000,
        span(7) == 0x100_0000_0000_0000,
        span(8) == 0x1_0000_0000_0000_0000,
{
    reveal_with_fuel(span, 10);
}

pub proof fn lemma_be_bytes_len(n: nat, width: nat)
    ensures
        be_bytes(n, width).len() == width,
    decreases width,
{
    if width > 0 {
        lemma_be_bytes_len(n / 256, (width - 1) as nat);
    }
}

pub proof fn lemma_be_value_bound(bytes: Seq<u8>)
    ensures
        be_value(bytes) < span(bytes.len()),
    decreases bytes.len(),
{
    if bytes.len() > 0 {
        lemma_be_value_bound(bytes.drop_last());
    }
}

/// Reading back the bytes written for a number that fits gives that number.
pub proof fn lemma_be_round_trip(n: nat, width: nat)
    requires
        n < span(width),
    ensures
        be_value(be_bytes(n, width)) == n,
    decreases width,
{
    if width > 0 {
        let rest = be_bytes(n / 256, (width - 1) as nat);
        lemma_be_round_trip(n / 256, (width - 1) as nat);
        assert(be_bytes(n, width).drop_last() =~= rest);
    }
}

/// Two's complement loses nothing of a number that fits.
pub proof fn lemma_twos_round_trip(i: int, width: nat)
    requires
        fits_signed(i, width),
    ensures
        twos(i, width) < span(width),
        untwos(twos(i, width), width) == i,
{
}

/// What two's complement reads always fits.
pub proof fn lemma_untwos_fits(n: nat, width: nat)
    requires
        n < span(width),
        width > 0,
    ensures
        fits_signed(untwos(n, width), width),
{
}

/// Appends the `width` low-order bytes of `n` to `out`, most significant first.
pub(crate) fn put_be(out: &mut Vec<u8>, n: u64, width: usize)
    requires
        width <= 8,
    ensures
        final(out)@ == old(out)@ + be_bytes(n as nat, width as nat),
    decreases width,
{
    if width > 0 {
        put_be(out, n / 256, width - 1);
        out.push((n % 256) as u8);
        assert(out@ =~= old(out)@ + be_bytes(n as nat, width as nat));
    } else {
        assert(out@ =~= old(out)@ + be_bytes(n as nat, width as nat));
    }
}

/// Reads the `width` bytes of `buf` that start at `pos` as one number.
pub(crate) fn get_be(buf: &[u8], pos: usize, width: usize) -> (n: u64)
    requires
        width <= 8,
        pos + width <= buf@.len(),
    ensures
        n as nat == be_value(buf@.subrange(pos as int, pos + width)),
        (n as nat) < span(width as nat),
    decreases width,
{
    if width == 0 {
        0
    } else {
        let high: u64 = get_be(buf, pos, width - 1);
        assert(buf@.len() == buf.len());
        let low: u8 = buf[pos + (width - 1)];
        proof {
            lemma_span_values();
            let whole = buf@.subrange(pos as int, pos + width);
            assert(whole.drop_last() =~= buf@.subrange(pos as int, pos + width - 1));
            assert(whole.last() == low);
        }
        high * 256 + low as u64
    }
}

/// The two's complement of `i` in `width` bytes, as an unsigned number.
pub(crate) fn to_twos(i: i64, width: usize) -> (n: u64)
    requires
        width == 1 || width == 2 || width == 4 || width == 8,
        fits_signed(i as int, width as nat),
    ensures
        n as nat == twos(i as int, width as nat),
        (n as nat) < span(width as nat),
{
    proof {
        lemma_span_values();
    }
    if i >= 0 {
        i as u64
    } else if width == 1 {
        (i + 0x100) as u64
    } else if width == 2 {
        (i + 0x1_0000) as u64
    } else if width == 4 {
        (i + 0x1_0000_0000) as u64
    } else {
        let lifted: u64 = (i + 1 + i64::MAX) as u64;
        lifted + 0x8000_0000_0000_0000
    }
}

/// The signed number that `n` stands for in `width` bytes of two's complement.
pub(crate) fn from_twos(n: u64, width: usize) -> (i: i64)
    requires
        width == 1 || width == 2 || width == 4 || width == 8,
        (n as nat) < span(width as nat),
    ensures
        i as int == untwos(n as nat, width as nat),
{
    proof {
        lemma_span_values();
    }
    if width == 1 {
        if n >= 0x80 {
            n as i64 - 0x100
        } else {
            n as i64
        }
    } else if width == 2 {
        if n >= 0x8000 {
            n as i64 - 0x1_0000
        } else {
            n as i64
        }
    } else if width == 4 {
        if n >= 0x8000_0000 {
            n as i64 - 0x1_0000_0000
        } else {
            n as i64
        }
    } else if n >= 0x8000_0000_0000_0000 {
        let lowered: i64 = (n - 0x8000_0000_0000_0000) as i64;
        lowered - i64::MAX - 1
    } else {
        n as i64
    }
}

} // verus!
