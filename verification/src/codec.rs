//! The wire framing of the trust protocol: a payload travels as a 4-byte
//! big-endian unsigned length followed by the payload bytes. Requests are
//! capped at 1 MiB, responses at 10 MiB; an oversize or malformed frame is
//! invalid data.
use vstd::prelude::*;
use vstd::arithmetic::div_mod::{lemma_breakdown, lemma_small_mod};
use crate::TrustError;

verus! {

/// Largest request payload accepted on the wire.
pub const REQUEST_SIZE_LIMIT: usize = 1_000_000;

/// Largest response payload accepted on the wire.
pub const RESPONSE_SIZE_LIMIT: usize = 10_000_000;

/// The protocol identifier spoken on every trust stream; incompatible
/// identifiers refuse to negotiate.
pub struct TrustProtocol;

impl TrustProtocol {
    /// The protocol identifier string.
    pub fn name(&self) -> (r: &'static str)
        ensures
            r@ == "/repeer/trust/1.0.0"@,
    {
        "/repeer/trust/1.0.0"
    }
}

/// The big-endian 4-byte encoding of a length.
pub open spec fn be32_bytes(n: int) -> Seq<u8> {
    seq![
        ((n / 0x1000000) % 256) as u8,
        ((n / 0x10000) % 256) as u8,
        ((n / 0x100) % 256) as u8,
        (n % 256) as u8,
    ]
}

/// The value of a big-endian 4-byte length prefix.
pub open spec fn be32_val(b: Seq<u8>) -> int {
    (b[0] as int) * 0x1000000 + (b[1] as int) * 0x10000 + (b[2] as int) * 0x100 + (b[3] as int)
}

/// What a payload looks like on the wire: its length, big-endian, then its
/// bytes.
pub open spec fn frame_spec(p: Seq<u8>) -> Seq<u8> {
    be32_bytes(p.len() as int) + p
}

/// Reading back the four prefix bytes of a frame yields the framed
/// payload's length: the framing round-trips.
pub proof fn lemma_be32_round_trip(n: int)
    requires
        0 <= n < 0x100000000,
    ensures
        be32_val(be32_bytes(n)) == n,
{
    lemma_breakdown(n, 0x1000000, 0x100);
    lemma_small_mod(n as nat, 0x100000000);
    lemma_breakdown(n, 0x10000, 0x100);
    lemma_small_mod((n % 0x1000000) as nat, 0x1000000);
    lemma_breakdown(n % 0x1000000, 0x10000, 0x100);
    lemma_breakdown(n, 0x100, 0x100);
    lemma_small_mod((n % 0x10000) as nat, 0x10000);
    lemma_breakdown(n % 0x10000, 0x100, 0x100);
    assert(n == 0x1000000 * ((n / 0x1000000) % 0x100) + n % 0x1000000);
    assert(n % 0x1000000 == 0x10000 * (((n % 0x1000000) / 0x10000) % 0x100) + (n % 0x1000000)
        % 0x10000);
    assert((n % 0x1000000) / 0x10000 == (n / 0x10000) % 0x100) by {
        lemma_breakdown(n, 0x10000, 0x100);
        lemma_truncate_eq(n, 0x10000, 0x100, 0x1000000);
    }
    assert((n % 0x10000) / 0x100 == (n / 0x100) % 0x100) by {
        lemma_truncate_eq(n, 0x100, 0x100, 0x10000);
    }
    assert((n % 0x1000000) % 0x10000 == n % 0x10000) by {
        lemma_mod_mod_vanish(n, 0x10000, 0x100, 0x1000000);
    }
    assert((n % 0x10000) % 0x100 == n % 0x100) by {
        lemma_mod_mod_vanish(n, 0x100, 0x100, 0x10000);
    }
}

/// `(n % (y * z)) / y == (n / y) % z` for nonnegative `n`: the middle digits
/// of a place-value decomposition.
proof fn lemma_truncate_eq(n: int, y: int, z: int, yz: int)
    requires
        0 <= n,
        0 < y,
        0 < z,
        yz == y * z,
    ensures
        (n % yz) / y == (n / y) % z,
{
    lemma_breakdown(n, y, z);
    assert(n % (y * z) == y * ((n / y) % z) + n % y);
    assert(y * ((n / y) % z) == ((n / y) % z) * y) by (nonlinear_arith);
    vstd::arithmetic::div_mod::lemma_mod_bound(n, y);
    vstd::arithmetic::div_mod::lemma_mod_bound(n / y, z);
    vstd::arithmetic::div_mod::lemma_fundamental_div_mod_converse(
        n % yz,
        y,
        (n / y) % z,
        n % y,
    );
}

/// `(n % (y * z)) % y == n % y` for nonnegative `n`.
proof fn lemma_mod_mod_vanish(n: int, y: int, z: int, yz: int)
    requires
        0 <= n,
        0 < y,
        0 < z,
        yz == y * z,
    ensures
        (n % yz) % y == n % y,
{
    lemma_breakdown(n, y, z);
    assert(n % (y * z) == y * ((n / y) % z) + n % y);
    assert(y * ((n / y) % z) == ((n / y) % z) * y) by (nonlinear_arith);
    vstd::arithmetic::div_mod::lemma_mod_bound(n, y);
    vstd::arithmetic::div_mod::lemma_mod_bound(n / y, z);
    vstd::arithmetic::div_mod::lemma_fundamental_div_mod_converse(
        n % yz,
        y,
        (n / y) % z,
        n % y,
    );
}

/// Encodes and decodes length-prefixed frames.
pub struct TrustCodec;

impl TrustCodec {
    /// Wraps a payload in a length-prefixed frame. A payload over the limit
    /// is rejected as invalid data.
    pub fn frame(payload: &Vec<u8>, max_len: usize) -> (r: Result<Vec<u8>, TrustError>)
        requires
            max_len < 0x100000000,
        ensures
            payload@.len() <= max_len ==> (r matches Ok(out) && out@ == frame_spec(payload@)),
            payload@.len() > max_len ==> r == Err::<Vec<u8>, TrustError>(TrustError::Input),
    {
        if payload.len() > max_len {
            return Err(TrustError::Input);
        }
        let n: usize = payload.len();
        let mut out: Vec<u8> = Vec::new();
        out.push(((n / 0x1000000) % 256) as u8);
        out.push(((n / 0x10000) % 256) as u8);
        out.push(((n / 0x100) % 256) as u8);
        out.push((n % 256) as u8);
        proof {
            assert(out@ =~= be32_bytes(payload@.len() as int));
        }
        let mut i: usize = 0;
        while i < payload.len()
            invariant
                0 <= i <= payload@.len(),
                out@ == be32_bytes(payload@.len() as int) + payload@.subrange(0, i as int),
            decreases payload@.len() - i,
        {
            out.push(payload[i]);
            proof {
                assert(be32_bytes(payload@.len() as int) + payload@.subrange(0, i + 1)
                    =~= (be32_bytes(payload@.len() as int) + payload@.subrange(0, i as int)).push(
                    payload@[i as int],
                ));
            }
            i += 1;
        }
        proof {
            assert(payload@.subrange(0, payload@.len() as int) =~= payload@);
        }
        Ok(out)
    }

    /// Takes a whole frame apart: reads the 4-byte big-endian length, holds
    /// it to the limit, and returns the payload. A short buffer, an oversize
    /// declared length or a length that disagrees with the buffer is
    /// invalid data.
    pub fn unframe(buf: &Vec<u8>, max_len: usize) -> (r: Result<Vec<u8>, TrustError>)
        ensures
            (buf@.len() >= 4 && be32_val(buf@) <= max_len && buf@.len() == 4 + be32_val(buf@))
                ==> (r matches Ok(out) && out@ == buf@.subrange(4, buf@.len() as int)),
            !(buf@.len() >= 4 && be32_val(buf@) <= max_len && buf@.len() == 4 + be32_val(buf@))
                ==> r == Err::<Vec<u8>, TrustError>(TrustError::Input),
    {
        if buf.len() < 4 {
            return Err(TrustError::Input);
        }
        let n: usize = (buf[0] as usize) * 0x1000000 + (buf[1] as usize) * 0x10000 + (
        buf[2] as usize) * 0x100 + (buf[3] as usize);
        assert(n as int == be32_val(buf@));
        if n > max_len {
            return Err(TrustError::Input);
        }
        if buf.len() - 4 != n {
            return Err(TrustError::Input);
        }
        let mut out: Vec<u8> = Vec::new();
        let mut i: usize = 4;
        proof {
            assert(buf@.subrange(4, 4) =~= Seq::<u8>::empty());
        }
        while i < buf.len()
            invariant
                4 <= i <= buf@.len(),
                out@ == buf@.subrange(4, i as int),
            decreases buf@.len() - i,
        {
            out.push(buf[i]);
            proof {
                assert(buf@.subrange(4, i + 1) =~= buf@.subrange(4, i as int).push(buf@[i as int]));
            }
            i += 1;
        }
        Ok(out)
    }
}

/// Framing a payload and taking the frame apart returns the payload
/// unchanged, at either side's size limit.
pub proof fn lemma_frame_unframe_round_trip(p: Seq<u8>, max_len: int)
    requires
        p.len() <= max_len,
        max_len < 0x100000000,
    ensures
        frame_spec(p).len() == 4 + p.len(),
        be32_val(frame_spec(p)) == p.len(),
        frame_spec(p).subrange(4, frame_spec(p).len() as int) == p,
{
    lemma_be32_round_trip(p.len() as int);
    let f = frame_spec(p);
    assert(be32_val(f) == be32_val(be32_bytes(p.len() as int))) by {
        assert(f[0] == be32_bytes(p.len() as int)[0]);
        assert(f[1] == be32_bytes(p.len() as int)[1]);
        assert(f[2] == be32_bytes(p.len() as int)[2]);
        assert(f[3] == be32_bytes(p.len() as int)[3]);
    }
    assert(f.subrange(4, f.len() as int) =~= p);
}

} // verus!
