//! Unsigned base-128 varints, as protobuf writes them: seven bits of the value
//! per byte, low group first, the high bit set on every byte but the last.

use crate::buffer::buffer_bytes;
use vstd::prelude::*;

verus! {

/// The most bytes a varint may take: enough for any `u64`.
pub const MAX_VARINT_LEN: usize = 10;

/// The bytes that encode `v`.
pub open spec fn varint_encode(v: nat) -> Seq<u8>
    decreases v,
{
    if v < 128 {
        seq![v as u8]
    } else {
        seq![(v % 128 + 128) as u8] + varint_encode(v / 128)
    }
}

/// What the front of a byte sequence holds, read as a varint.
pub enum VarintScan {
    /// The bytes end before a last byte of the varint comes.
    Incomplete,
    /// No varint of at most the allowed length starts here, or its value does
    /// not fit in 64 bits.
    Malformed,
    /// A varint of `size` bytes, with value `value`.
    Complete { value: nat, size: nat },
}

/// Reads a varint from the front of `s` that takes at most `room` bytes. In
/// the last byte allowed only the lowest bit may be set, which keeps the value
/// below `2 * 128^(room - 1)`.
pub open spec fn varint_scan(s: Seq<u8>, room: nat) -> VarintScan
    decreases room,
{
    if room == 0 {
        VarintScan::Malformed
    } else if s.len() == 0 {
        VarintScan::Incomplete
    } else if s[0] < 128 {
        if room == 1 && s[0] >= 2 {
            VarintScan::Malformed
        } else {
            VarintScan::Complete { value: s[0] as nat, size: 1 }
        }
    } else {
        match varint_scan(s.drop_first(), (room - 1) as nat) {
            VarintScan::Complete { value, size } => VarintScan::Complete {
                value: (s[0] - 128) as nat + 128 * value,
                size: size + 1,
            },
            other => other,
        }
    }
}

/// Reads a varint of at most ten bytes from the front of `s`.
pub open spec fn varint_prefix(s: Seq<u8>) -> VarintScan {
    varint_scan(s, MAX_VARINT_LEN as nat)
}

/// One more than the largest value that `room` bytes can carry.
pub open spec fn varint_bound(room: nat) -> nat
    decreases room,
{
    if room <= 1 {
        2
    } else {
        128 * varint_bound((room - 1) as nat)
    }
}

/// A scan runs out of bytes only on a sequence shorter than its room, and
/// finds no varint only on one at least as long.
pub proof fn lemma_scan_short(s: Seq<u8>, room: nat)
    ensures
        varint_scan(s, room) is Incomplete ==> s.len() < room,
        varint_scan(s, room) is Malformed ==> s.len() >= room,
    decreases room,
{
    if room > 0 && s.len() > 0 && s[0] >= 128 {
        lemma_scan_short(s.drop_first(), (room - 1) as nat);
    }
}

/// Every room carries at least the values 0 and 1.
pub proof fn lemma_varint_bound_min(room: nat)
    ensures
        varint_bound(room) >= 2,
    decreases room,
{
    if room > 1 {
        lemma_varint_bound_min((room - 1) as nat);
    }
}

/// Ten bytes carry exactly the 64-bit values.
pub proof fn lemma_varint_bound_ten()
    ensures
        varint_bound(10) == 0x1_0000_0000_0000_0000,
{
    reveal_with_fuel(varint_bound, 10);
}

/// A varint read within `room` bytes is below `varint_bound(room)` and takes
/// at least one byte.
pub proof fn lemma_scan_bounded(s: Seq<u8>, room: nat)
    ensures
        varint_scan(s, room) matches VarintScan::Complete { value, size }
            ==> value < varint_bound(room) && 1 <= size <= room && size <= s.len(),
    decreases room,
{
    if room >= 2 {
        assert(varint_bound(room) == 128 * varint_bound((room - 1) as nat));
        lemma_varint_bound_min((room - 1) as nat);
    }
    if room > 0 && s.len() > 0 && s[0] >= 128 {
        lemma_scan_bounded(s.drop_first(), (room - 1) as nat);
        if let VarintScan::Complete { value, size } = varint_scan(s.drop_first(), (room - 1) as nat) {
            let b = varint_bound((room - 1) as nat);
            assert((s[0] - 128) + 128 * value < 128 * b) by (nonlinear_arith)
                requires
                    value < b,
                    0 <= s[0] - 128 < 128,
            ;
        }
    }
}

/// The encoding of `v` is found again at the front of any sequence it begins.
pub proof fn lemma_scan_encoded(v: nat, rest: Seq<u8>, room: nat)
    requires
        1 <= room,
        v < varint_bound(room),
    ensures
        varint_scan(varint_encode(v) + rest, room) == (VarintScan::Complete {
            value: v,
            size: varint_encode(v).len(),
        }),
        varint_encode(v).len() <= room,
    decreases v,
{
    let s = varint_encode(v) + rest;
    if v < 128 {
        assert(s[0] == v as u8);
    } else {
        assert(room >= 2) by {
            if room <= 1 {
                assert(varint_bound(room) == 2);
            }
        }
        lemma_scan_encoded(v / 128, rest, (room - 1) as nat);
        assert(s.drop_first() =~= varint_encode(v / 128) + rest);
        assert(s[0] == (v % 128 + 128) as u8);
    }
}

/// A proper prefix of the encoding of `v` does not yet hold a whole varint.
pub proof fn lemma_scan_encoded_prefix(v: nat, i: nat, room: nat)
    requires
        1 <= room,
        v < varint_bound(room),
        i < varint_encode(v).len(),
    ensures
        varint_scan(varint_encode(v).take(i as int), room) == VarintScan::Incomplete,
    decreases v,
{
    let s = varint_encode(v).take(i as int);
    if i > 0 {
        assert(v >= 128);
        assert(room >= 2) by {
            if room <= 1 {
                assert(varint_bound(room) == 2);
            }
        }
        lemma_scan_encoded_prefix(v / 128, (i - 1) as nat, (room - 1) as nat);
        assert(s.drop_first() =~= varint_encode(v / 128).take(i - 1));
        assert(s[0] == (v % 128 + 128) as u8);
    }
}

/// Relies on `prost::encoding::decode_varint` on the buffer's bytes: it reads the varint at
/// the front, and on success leaves the slice at the bytes after it. This gives
/// back the value and how many bytes are left; `None` where the slice holds no
/// whole, well-formed varint at its front.
#[verifier::external_body]
pub(crate) fn prost_decode_varint(b: &bytes::BytesMut) -> (r: Option<(u64, usize)>)
    ensures
        match varint_prefix(buffer_bytes(*b)) {
            VarintScan::Complete { value, size } => r == Some(
                (value as u64, (buffer_bytes(*b).len() - size) as usize),
            ),
            _ => r is None,
        },
{
    let mut cur: &[u8] = &b[..];
    match prost::encoding::decode_varint(&mut cur) {
        Ok(v) => Some((v, cur.len())),
        Err(_) => None,
    }
}

/// Relies on `prost::encoding::encode_varint`: the encoding of `v` is appended
/// at the back of the buffer.
#[verifier::external_body]
pub(crate) fn prost_encode_varint(v: u64, b: &mut bytes::BytesMut)
    requires
        buffer_bytes(*old(b)).len() + MAX_VARINT_LEN <= isize::MAX,
    ensures
        buffer_bytes(*final(b)) == buffer_bytes(*old(b)) + varint_encode(v as nat),
{
    prost::encoding::encode_varint(v, b)
}

} // verus!
