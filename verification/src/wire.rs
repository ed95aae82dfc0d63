//! Fixed-width integers in network byte order.

use byteorder::{ByteOrder, NetworkEndian};
use vstd::prelude::*;

verus! {

/// The two bytes that stand for `n` on the wire, most significant first.
pub open spec fn be16(n: u16) -> Seq<u8> {
    seq![(n / 256) as u8, (n % 256) as u8]
}

/// The number that the bytes `hi`, `lo` stand for on the wire.
pub open spec fn be16_value(hi: u8, lo: u8) -> u16 {
    (hi as int * 256 + lo as int) as u16
}

/// Reading back what was written gives the number that was written.
pub proof fn lemma_be16_round_trip(n: u16)
    ensures
        be16(n).len() == 2,
        be16_value(be16(n)[0], be16(n)[1]) == n,
{
}

/// Writing what was read gives the bytes that were read.
pub proof fn lemma_be16_value_round_trip(hi: u8, lo: u8)
    ensures
        be16(be16_value(hi, lo)) == seq![hi, lo],
{
    assert(be16(be16_value(hi, lo)) =~= seq![hi, lo]);
}

/// Calls `byteorder::NetworkEndian::read_u16`, which panics on fewer than two
/// bytes and otherwise reads the first two bytes as a big-endian number. The
/// contract is taken from the crate and not proved here.
#[verifier::external_body]
pub(crate) fn read_u16(buf: &[u8]) -> (n: u16)
    requires
        buf@.len() >= 2,
    ensures
        n == be16_value(buf@[0], buf@[1]),
{
    NetworkEndian::read_u16(buf)
}

/// Calls `byteorder::NetworkEndian::write_u16`, which panics on fewer than two
/// bytes and otherwise overwrites the first two bytes with `n` in big-endian
/// order and leaves the rest alone. The contract is taken from the crate and
/// not proved here.
#[verifier::external_body]
pub(crate) fn write_u16(buf: &mut [u8], n: u16)
    requires
        old(buf)@.len() >= 2,
    ensures
        final(buf)@ == be16(n) + old(buf)@.skip(2),
{
    NetworkEndian::write_u16(buf, n)
}

} // verus!
