//! Little-endian 32-bit integers, as every numeric header field is stored.
use byteorder::{ByteOrder, LittleEndian};
use vstd::prelude::*;

verus! {

/// The value of four bytes read as a little-endian unsigned integer.
pub open spec fn le_value(b: Seq<u8>) -> int {
    b[0] as int + 256 * (b[1] as int) + 65536 * (b[2] as int) + 16777216 * (b[3] as int)
}

/// The four little-endian bytes of `n`.
pub open spec fn le_bytes(n: u32) -> Seq<u8> {
    seq![
        (n % 256) as u8,
        ((n / 256) % 256) as u8,
        ((n / 65536) % 256) as u8,
        ((n / 16777216) % 256) as u8,
    ]
}

/// Reading back the bytes of `n` gives `n`.
pub proof fn lemma_le_round_trip(n: u32)
    ensures
        le_value(le_bytes(n)) == n as int,
{
    let b = le_bytes(n);
    let x = n as int;
    assert(b[0] as int == x % 256);
    assert(b[1] as int == (x / 256) % 256);
    assert(b[2] as int == (x / 65536) % 256);
    assert(b[3] as int == (x / 16777216) % 256);
    assert(x == x % 256 + 256 * ((x / 256) % 256) + 65536 * ((x / 65536) % 256) + 16777216 * ((
    x / 16777216) % 256)) by (nonlinear_arith)
        requires
            0 <= x < 0x1_0000_0000,
    {
        assert(x / 65536 == (x / 256) / 256);
        assert(x / 16777216 == (x / 65536) / 256);
    }
}

/// Relies on byteorder's `LittleEndian::read_u32`: the first four bytes of
/// the buffer in little-endian order (it panics on a shorter buffer).
#[verifier::external_body]
pub(crate) fn read_le_u32(buf: &[u8]) -> (r: u32)
    requires
        buf@.len() == 4,
    ensures
        r as int == le_value(buf@),
{
    LittleEndian::read_u32(buf)
}

/// Relies on byteorder's `LittleEndian::write_u32`: stores `n` into the
/// first four bytes of the buffer, least significant byte first.
#[verifier::external_body]
pub(crate) fn write_le_u32(buf: &mut [u8; 4], n: u32)
    ensures
        final(buf)@ == le_bytes(n),
{
    LittleEndian::write_u32(buf, n)
}

} // verus!
