//! Byte-level encodings of integers used by the canonical codec:
//! fixed-width little-endian and big-endian forms, the minimal-width
//! little-endian form of an unsigned number, and the unsigned LEB128 form.

use vstd::prelude::*;

verus! {

/// The little-endian bytes of `n`, exactly `count` of them
/// (higher bytes of `n` beyond `count` are dropped).
pub open spec fn le_bytes_fixed(n: nat, count: nat) -> Seq<u8>
    decreases count,
{
    if count == 0 {
        Seq::empty()
    } else {
        seq![(n % 256) as u8] + le_bytes_fixed(n / 256, (count - 1) as nat)
    }
}

/// The minimal-width little-endian bytes of a positive number;
/// empty for zero.
pub open spec fn pos_le_bytes(n: nat) -> Seq<u8>
    decreases n,
{
    if n == 0 {
        Seq::empty()
    } else {
        seq![(n % 256) as u8] + pos_le_bytes(n / 256)
    }
}

/// The minimal-width little-endian bytes of an unsigned number,
/// where zero is the single byte 0.
pub open spec fn nat_le_bytes(n: nat) -> Seq<u8> {
    if n == 0 {
        seq![0u8]
    } else {
        pos_le_bytes(n)
    }
}

/// The 8 big-endian bytes of a 64-bit number.
pub open spec fn u64_be_bytes(x: u64) -> Seq<u8> {
    le_bytes_fixed(x as nat, 8).reverse()
}

/// The 16 little-endian bytes of a signed 128-bit number
/// in two's complement.
pub open spec fn i128_le_bytes(x: i128) -> Seq<u8> {
    le_bytes_fixed((x as u128) as nat, 16)
}

/// The unsigned LEB128 form of `n`: seven value bits per byte,
/// least significant group first, high bit set on every byte but the last.
pub open spec fn uleb128_of(n: nat) -> Seq<u8>
    decreases n,
{
    if n < 128 {
        seq![n as u8]
    } else {
        seq![(n % 128 + 128) as u8] + uleb128_of(n / 128)
    }
}

proof fn lemma_le_bytes_fixed_len(n: nat, count: nat)
    ensures
        le_bytes_fixed(n, count).len() == count,
    decreases count,
{
    if count > 0 {
        lemma_le_bytes_fixed_len(n / 256, (count - 1) as nat);
    }
}

/// The little-endian bytes of `x`, exactly `count` of them, dropping
/// higher bytes; the building block of the fixed-width encoders.
fn le_bytes_out(x: u128, count: usize) -> (r: Vec<u8>)
    ensures
        r@ == le_bytes_fixed(x as nat, count as nat),
        r@.len() == count,
{
    let mut r: Vec<u8> = Vec::new();
    let mut u: u128 = x;
    let mut k: usize = 0;
    proof {
        lemma_le_bytes_fixed_len(x as nat, count as nat);
    }
    while k < count
        invariant
            k <= count,
            r@.len() == k,
            le_bytes_fixed(x as nat, count as nat) == r@ + le_bytes_fixed(
                u as nat,
                (count - k) as nat,
            ),
        decreases count - k,
    {
        let b: u8 = (u % 256) as u8;
        proof {
            assert(le_bytes_fixed(u as nat, (count - k) as nat) == seq![b] + le_bytes_fixed(
                u as nat / 256,
                (count - k - 1) as nat,
            ));
            assert(r@ + le_bytes_fixed(u as nat, (count - k) as nat) == r@.push(b)
                + le_bytes_fixed(u as nat / 256, (count - k - 1) as nat));
        }
        r.push(b);
        u = u / 256;
        k = k + 1;
    }
    proof {
        assert(r@ + le_bytes_fixed(u as nat, 0) == r@);
    }
    r
}

/// The 8 big-endian bytes of `x`, as written into the hash input for
/// block and entry timestamps.
pub fn be_bytes_u64(x: u64) -> (r: Vec<u8>)
    ensures
        r@ == u64_be_bytes(x),
        r@.len() == 8,
{
    let le = le_bytes_out(x as u128, 8);
    let mut r: Vec<u8> = Vec::new();
    let mut k: usize = 0;
    while k < 8
        invariant
            k <= 8,
            le@.len() == 8,
            le@ == le_bytes_fixed(x as nat, 8),
            r@.len() == k,
            forall|j: int| 0 <= j < k ==> r@[j] == le@[7 - j],
        decreases 8 - k,
    {
        r.push(le[7 - k]);
        k = k + 1;
    }
    proof {
        assert(r@ =~= le_bytes_fixed(x as nat, 8).reverse());
    }
    r
}

/// The 16 little-endian two's-complement bytes of `x`, as written into
/// the hash input for signed payload integers.
pub fn le_bytes_i128(x: i128) -> (r: Vec<u8>)
    ensures
        r@ == i128_le_bytes(x),
        r@.len() == 16,
{
    le_bytes_out(x as u128, 16)
}

/// The minimal-width little-endian bytes of `x`, with zero written as
/// one zero byte; used for block indices in the hash input.
pub fn min_le_bytes_u64(x: u64) -> (r: Vec<u8>)
    ensures
        r@ == nat_le_bytes(x as nat),
{
    if x == 0 {
        let mut r: Vec<u8> = Vec::new();
        r.push(0u8);
        proof {
            assert(r@ =~= nat_le_bytes(0));
        }
        return r;
    }
    let mut r: Vec<u8> = Vec::new();
    let mut u: u64 = x;
    while u > 0
        invariant
            pos_le_bytes(x as nat) == r@ + pos_le_bytes(u as nat),
        decreases u,
    {
        let b: u8 = (u % 256) as u8;
        proof {
            assert(pos_le_bytes(u as nat) == seq![b] + pos_le_bytes(u as nat / 256));
            assert(r@ + pos_le_bytes(u as nat) == r@.push(b) + pos_le_bytes(u as nat / 256));
        }
        r.push(b);
        u = u / 256;
    }
    proof {
        assert(r@ + pos_le_bytes(0) =~= r@);
    }
    r
}

} // verus!
