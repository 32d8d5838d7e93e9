//! Canonical LEB128 (unsigned) and SLEB128 (signed) integer encodings.

use vstd::prelude::*;

verus! {

/// The canonical unsigned LEB128 encoding of `v`: seven bits per byte,
/// least significant group first, the high bit set on every byte but the last.
pub open spec fn uleb(v: nat) -> Seq<u8>
    decreases v,
{
    if v < 128 {
        seq![v as u8]
    } else {
        seq![(v % 128 + 128) as u8] + uleb(v / 128)
    }
}

/// The canonical signed LEB128 encoding of `v`: two's complement groups of
/// seven bits, ending at the first group whose sign bit agrees with the rest.
pub open spec fn sleb(v: int) -> Seq<u8>
    decreases (if v >= 0 { v } else { -v }),
{
    if -64 <= v < 64 {
        seq![(v % 128) as u8]
    } else {
        seq![(v % 128 + 128) as u8] + sleb(v / 128)
    }
}

/// Relies on leb128::write::unsigned: it appends the unsigned LEB128 bytes of
/// `v` to the writer; writing into a `Vec<u8>` never fails.
#[verifier::external_body]
pub(crate) fn write_uleb(buf: &mut Vec<u8>, v: u64)
    ensures
        final(buf)@ == old(buf)@ + uleb(v as nat),
{
    let _ = leb128::write::unsigned(buf, v);
}

/// Relies on leb128::write::signed: it appends the signed LEB128 bytes of
/// `v` to the writer; writing into a `Vec<u8>` never fails.
#[verifier::external_body]
pub(crate) fn write_sleb(buf: &mut Vec<u8>, v: i64)
    ensures
        final(buf)@ == old(buf)@ + sleb(v as int),
{
    let _ = leb128::write::signed(buf, v);
}

} // verus!
