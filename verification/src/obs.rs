//! The observation record and the encoding of hardware addresses as
//! integer keys.
use vstd::prelude::*;

verus! {

/// A single proximity-beacon observation. Coordinates are degrees scaled
/// by `10^7` (so `377_749_000` stands for `37.7749` degrees). No field is
/// validated against a physical range: out-of-range values are stored
/// as given.
#[derive(Debug, Clone, Copy, PartialEq)]
pub struct BleObservation {
    /// Signal strength in dBm.
    pub rssi: i8,
    /// Hardware address, six bytes.
    pub mac: [u8; 6],
    /// Timestamp in a caller-defined unit.
    pub timestamp: i64,
    /// Latitude in degrees scaled by `10^7`.
    pub lat_e7: i64,
    /// Longitude in degrees scaled by `10^7`.
    pub lon_e7: i64,
}

/// The value of a six-byte address read as a big-endian integer.
pub open spec fn mac_key(m: Seq<u8>) -> int {
    m[0] * 0x100_0000_0000 + m[1] * 0x1_0000_0000 + m[2] * 0x100_0000 + m[3] * 0x1_0000 + m[4]
        * 0x100 + m[5]
}

/// Strict lexicographic order on six-byte addresses.
pub open spec fn mac_lex_lt(a: Seq<u8>, b: Seq<u8>) -> bool {
    ||| a[0] < b[0]
    ||| (a[0] == b[0] && a[1] < b[1])
    ||| (a[0] == b[0] && a[1] == b[1] && a[2] < b[2])
    ||| (a[0] == b[0] && a[1] == b[1] && a[2] == b[2] && a[3] < b[3])
    ||| (a[0] == b[0] && a[1] == b[1] && a[2] == b[2] && a[3] == b[3] && a[4] < b[4])
    ||| (a[0] == b[0] && a[1] == b[1] && a[2] == b[2] && a[3] == b[3] && a[4] == b[4] && a[5]
        < b[5])
}

/// Packs a six-byte address into its big-endian integer key.
pub fn pack_mac(m: &[u8; 6]) -> (r: i64)
    ensures
        r == mac_key(m@),
        0 <= r < 0x1_0000_0000_0000,
{
    let r: i64 = (m[0] as i64) * 0x100_0000_0000 + (m[1] as i64) * 0x1_0000_0000 + (m[2] as i64)
        * 0x100_0000 + (m[3] as i64) * 0x1_0000 + (m[4] as i64) * 0x100 + (m[5] as i64);
    r
}

/// Unpacks an address key back into its six bytes.
pub fn unpack_mac(k: i64) -> (r: [u8; 6])
    requires
        0 <= k < 0x1_0000_0000_0000,
    ensures
        mac_key(r@) == k,
{
    let v = k as u64;
    let r = [
        (v / 0x100_0000_0000) as u8,
        (v / 0x1_0000_0000 % 0x100) as u8,
        (v / 0x100_0000 % 0x100) as u8,
        (v / 0x1_0000 % 0x100) as u8,
        (v / 0x100 % 0x100) as u8,
        (v % 0x100) as u8,
    ];
    proof {
        let b0 = (k as u64) / 0x100_0000_0000;
        let b1 = (k as u64) / 0x1_0000_0000 % 0x100;
        let b2 = (k as u64) / 0x100_0000 % 0x100;
        let b3 = (k as u64) / 0x1_0000 % 0x100;
        let b4 = (k as u64) / 0x100 % 0x100;
        let b5 = (k as u64) % 0x100;
        assert(b0 * 0x100_0000_0000 + b1 * 0x1_0000_0000 + b2 * 0x100_0000 + b3 * 0x1_0000 + b4
            * 0x100 + b5 == k as u64) by (bit_vector)
            requires
                (k as u64) < 0x1_0000_0000_0000,
                b0 == (k as u64) / 0x100_0000_0000,
                b1 == (k as u64) / 0x1_0000_0000 % 0x100,
                b2 == (k as u64) / 0x100_0000 % 0x100,
                b3 == (k as u64) / 0x1_0000 % 0x100,
                b4 == (k as u64) / 0x100 % 0x100,
                b5 == (k as u64) % 0x100,
        ;
        assert(r@[0] == b0 && r@[1] == b1 && r@[2] == b2 && r@[3] == b3 && r@[4] == b4 && r@[5]
            == b5);
    }
    r
}

/// Two addresses with the same key hold the same bytes.
pub proof fn lemma_mac_key_injective(a: Seq<u8>, b: Seq<u8>)
    requires
        a.len() == 6,
        b.len() == 6,
        forall|i: int| 0 <= i < 6 ==> a[i] < 256 && b[i] < 256,
        mac_key(a) == mac_key(b),
    ensures
        a =~= b,
{
    let a0 = a[0] as u64;
    let a1 = a[1] as u64;
    let a2 = a[2] as u64;
    let a3 = a[3] as u64;
    let a4 = a[4] as u64;
    let a5 = a[5] as u64;
    let c0 = b[0] as u64;
    let c1 = b[1] as u64;
    let c2 = b[2] as u64;
    let c3 = b[3] as u64;
    let c4 = b[4] as u64;
    let c5 = b[5] as u64;
    assert(a0 == c0 && a1 == c1 && a2 == c2 && a3 == c3 && a4 == c4 && a5 == c5) by (bit_vector)
        requires
            a0 < 256 && a1 < 256 && a2 < 256 && a3 < 256 && a4 < 256 && a5 < 256,
            c0 < 256 && c1 < 256 && c2 < 256 && c3 < 256 && c4 < 256 && c5 < 256,
            a0 * 0x100_0000_0000 + a1 * 0x1_0000_0000 + a2 * 0x100_0000 + a3 * 0x1_0000 + a4 * 0x100
                + a5 == c0 * 0x100_0000_0000 + c1 * 0x1_0000_0000 + c2 * 0x100_0000 + c3 * 0x1_0000
                + c4 * 0x100 + c5,
    ;
}

/// The key order agrees with the lexicographic byte order.
pub proof fn lemma_mac_key_lex(a: Seq<u8>, b: Seq<u8>)
    requires
        a.len() == 6,
        b.len() == 6,
        forall|i: int| 0 <= i < 6 ==> a[i] < 256 && b[i] < 256,
    ensures
        mac_key(a) < mac_key(b) <==> mac_lex_lt(a, b),
{
    let a0 = a[0] as u64;
    let a1 = a[1] as u64;
    let a2 = a[2] as u64;
    let a3 = a[3] as u64;
    let a4 = a[4] as u64;
    let a5 = a[5] as u64;
    let c0 = b[0] as u64;
    let c1 = b[1] as u64;
    let c2 = b[2] as u64;
    let c3 = b[3] as u64;
    let c4 = b[4] as u64;
    let c5 = b[5] as u64;
    assert((a0 * 0x100_0000_0000 + a1 * 0x1_0000_0000 + a2 * 0x100_0000 + a3 * 0x1_0000 + a4 * 0x100
        + a5 < c0 * 0x100_0000_0000 + c1 * 0x1_0000_0000 + c2 * 0x100_0000 + c3 * 0x1_0000 + c4
        * 0x100 + c5) <==> (a0 < c0 || (a0 == c0 && a1 < c1) || (a0 == c0 && a1 == c1 && a2 < c2)
        || (a0 == c0 && a1 == c1 && a2 == c2 && a3 < c3) || (a0 == c0 && a1 == c1 && a2 == c2 && a3
        == c3 && a4 < c4) || (a0 == c0 && a1 == c1 && a2 == c2 && a3 == c3 && a4 == c4 && a5 < c5)))
        by (bit_vector)
        requires
            a0 < 256 && a1 < 256 && a2 < 256 && a3 < 256 && a4 < 256 && a5 < 256,
            c0 < 256 && c1 < 256 && c2 < 256 && c3 < 256 && c4 < 256 && c5 < 256,
    ;
}

} // verus!
