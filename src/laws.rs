//! Properties of every message and of the integer encodings.

use vstd::prelude::*;
use crate::error::Error;
use crate::leb::{sleb, uleb};
use crate::table_laws::lemma_same_view_type_bytes;
use crate::types::{KnotRegistry, Type};
use crate::writer::{magic, message};

verus! {

/// Reads back a signed LEB128 encoding: seven bits per byte, least
/// significant first, sign taken from bit 6 of the last byte.
pub open spec fn sleb_decode(b: Seq<u8>) -> int
    decreases b.len(),
{
    if b.len() == 0 {
        0
    } else if b[0] < 128 {
        if b[0] >= 64 { b[0] - 128 } else { b[0] as int }
    } else {
        (b[0] - 128) + 128 * sleb_decode(b.drop_first())
    }
}

/// Reads back an unsigned LEB128 encoding.
pub open spec fn uleb_decode(b: Seq<u8>) -> nat
    decreases b.len(),
{
    if b.len() == 0 {
        0
    } else if b[0] < 128 {
        b[0] as nat
    } else {
        ((b[0] - 128) + 128 * uleb_decode(b.drop_first())) as nat
    }
}

/// Decoding the signed encoding of an integer gives the integer back, so
/// encoding the decoded value again gives the same bytes.
pub proof fn lemma_sleb_round_trip(n: int)
    ensures
        sleb_decode(sleb(n)) == n,
        sleb(sleb_decode(sleb(n))) == sleb(n),
    decreases (if n >= 0 { n } else { -n }),
{
    if -64 <= n < 64 {
        assert(sleb(n) =~= seq![(n % 128) as u8]);
    } else {
        let rest = sleb(n / 128);
        lemma_sleb_round_trip(n / 128);
        assert(sleb(n) =~= seq![(n % 128 + 128) as u8] + rest);
        assert(sleb(n).drop_first() =~= rest);
        assert(n == 128 * (n / 128) + n % 128);
    }
}

/// Decoding the unsigned encoding of a natural number gives it back, so
/// encoding the decoded value again gives the same bytes.
pub proof fn lemma_uleb_round_trip(n: nat)
    ensures
        uleb_decode(uleb(n)) == n,
        uleb(uleb_decode(uleb(n))) == uleb(n),
    decreases n,
{
    if n >= 128 {
        let rest = uleb(n / 128);
        lemma_uleb_round_trip(n / 128);
        assert(uleb(n) =~= seq![(n % 128 + 128) as u8] + rest);
        assert(uleb(n).drop_first() =~= rest);
        assert(n == 128 * (n / 128) + n % 128);
    }
}

/// Every 64-bit signed integer re-encodes to the same bytes after decoding.
pub proof fn lemma_int_reencode(n: i64)
    ensures
        sleb(sleb_decode(sleb(n as int))) == sleb(n as int),
{
    lemma_sleb_round_trip(n as int);
}

/// Every message begins with the four magic bytes `44 49 44 4C`.
pub proof fn lemma_header(t: Type, reg: &KnotRegistry, payload: Result<Seq<u8>, Error>)
    ensures
        message(t, reg, payload) is Ok ==> message(t, reg, payload)->Ok_0.len() >= 4
            && message(t, reg, payload)->Ok_0.take(4) == magic(),
{
    if message(t, reg, payload) is Ok {
        let m = message(t, reg, payload)->Ok_0;
        let tb = crate::table::type_bytes(t, reg)->Ok_0;
        let vb = payload->Ok_0;
        assert(m == magic() + tb + vb);
        assert(m.take(4) =~= magic());
    }
}

/// What `to_bytes` promises of its result `r` for a declared type, registry
/// and payload.
pub open spec fn is_message_result(t: Type, reg: &KnotRegistry, payload: Result<Seq<u8>, Error>, r: Result<Seq<u8>, Error>) -> bool {
    match message(t, reg, payload) {
        Ok(b) => r == Ok::<Seq<u8>, Error>(b),
        Err(e) => r == Err::<Seq<u8>, Error>(e),
    }
}

/// Serialization is a function of its inputs: two results for types with
/// the same view, the same registry and the same payload are the same bytes,
/// or the same error.
pub proof fn lemma_deterministic(
    t1: Type,
    t2: Type,
    reg: &KnotRegistry,
    payload: Result<Seq<u8>, Error>,
    r1: Result<Seq<u8>, Error>,
    r2: Result<Seq<u8>, Error>,
)
    requires
        t1@ == t2@,
        is_message_result(t1, reg, payload, r1),
        is_message_result(t2, reg, payload, r2),
    ensures
        r1 == r2,
{
    lemma_same_view_type_bytes(t1, t2, reg);
}

} // verus!
