//! Decoding of the deposit contract's `DepositEvent` log data.
//!
//! The event carries five ABI-encoded byte strings: pubkey (48 bytes),
//! withdrawal credentials (32), amount (8, little-endian), signature (96)
//! and index (8, little-endian). Five offset words come first, then each
//! string as a length word followed by its bytes padded to a whole word.
use vstd::prelude::*;
use crate::block_cache::FetchError;
use crate::deposit_tree::{DepositData, DepositLog};
use vstd::arithmetic::power::{lemma_pow_increases, pow};

verus! {

/// Length of the event's log data.
pub const DEPOSIT_EVENT_LEN: usize = 576;

/// Where the bytes of each field start in the event data.
pub const PUBKEY_START: usize = 192;
pub const CREDENTIALS_START: usize = 288;
pub const AMOUNT_START: usize = 352;
pub const SIGNATURE_START: usize = 416;
pub const INDEX_START: usize = 544;

/// The unsigned integer whose little-endian bytes are `s`.
pub open spec fn le_value(s: Seq<u8>) -> nat
    decreases s.len(),
{
    if s.len() == 0 {
        0
    } else {
        s[0] as nat + 256 * le_value(s.drop_first())
    }
}

proof fn lemma_le_value_bound(s: Seq<u8>)
    ensures
        le_value(s) < pow(256, s.len()),
    decreases s.len(),
{
    reveal(pow);
    if s.len() > 0 {
        lemma_le_value_bound(s.drop_first());
        let p = pow(256, (s.len() - 1) as nat);
        let v = le_value(s.drop_first());
        assert(pow(256, s.len()) == 256 * p);
        assert(s[0] as nat + 256 * v < 256 * p) by (nonlinear_arith)
            requires
                v < p,
                s[0] < 256,
        ;
    }
}

/// The little-endian integer in the eight bytes `d[start..start + 8]`.
pub fn read_le_u64(d: &[u8], start: usize) -> (r: u64)
    requires
        start + 8 <= d@.len(),
    ensures
        r == le_value(d@.subrange(start as int, start + 8)),
{
    proof {
        reveal_with_fuel(pow, 9);
        assert(pow(256, 8) == 0x1_0000_0000_0000_0000);
    }
    let mut v: u64 = 0;
    let mut i: usize = 8;
    assert(d@.subrange(start + 8, start + 8) =~= Seq::<u8>::empty());
    let n = d.len();
    while i > 0
        invariant
            i <= 8,
            start + 8 <= d@.len() == n,
            pow(256, 8) == 0x1_0000_0000_0000_0000,
            v == le_value(d@.subrange(start + i, start + 8)),
        decreases i,
    {
        let ghost tail = d@.subrange(start + i, start + 8);
        let ghost next = d@.subrange(start + i - 1, start + 8);
        assert(next.drop_first() =~= tail);
        proof {
            lemma_le_value_bound(next);
            lemma_pow_increases(256, next.len(), 8);
        }
        v = v * 256 + d[start + i - 1] as u64;
        i = i - 1;
    }
    v
}

/// The 48 bytes `d[start..start + 48]`.
fn read_48(d: &[u8], start: usize) -> (r: [u8; 48])
    requires
        start + 48 <= d@.len(),
    ensures
        r@ == d@.subrange(start as int, start + 48),
{
    let mut r = [0u8; 48];
    let mut i: usize = 0;
    let n = d.len();
    while i < 48
        invariant
            i <= 48,
            start + 48 <= d@.len() == n,
            r@.len() == 48,
            forall|t: int| 0 <= t < i ==> r@[t] == d@[start + t],
        decreases 48 - i,
    {
        r[i] = d[start + i];
        i = i + 1;
    }
    assert(r@ =~= d@.subrange(start as int, start + 48));
    r
}

/// The 32 bytes `d[start..start + 32]`.
fn read_32(d: &[u8], start: usize) -> (r: [u8; 32])
    requires
        start + 32 <= d@.len(),
    ensures
        r@ == d@.subrange(start as int, start + 32),
{
    let mut r = [0u8; 32];
    let mut i: usize = 0;
    let n = d.len();
    while i < 32
        invariant
            i <= 32,
            start + 32 <= d@.len() == n,
            r@.len() == 32,
            forall|t: int| 0 <= t < i ==> r@[t] == d@[start + t],
        decreases 32 - i,
    {
        r[i] = d[start + i];
        i = i + 1;
    }
    assert(r@ =~= d@.subrange(start as int, start + 32));
    r
}

/// The 96 bytes `d[start..start + 96]`.
fn read_96(d: &[u8], start: usize) -> (r: [u8; 96])
    requires
        start + 96 <= d@.len(),
    ensures
        r@ == d@.subrange(start as int, start + 96),
{
    let mut r = [0u8; 96];
    let mut i: usize = 0;
    let n = d.len();
    while i < 96
        invariant
            i <= 96,
            start + 96 <= d@.len() == n,
            r@.len() == 96,
            forall|t: int| 0 <= t < i ==> r@[t] == d@[start + t],
        decreases 96 - i,
    {
        r[i] = d[start + i];
        i = i + 1;
    }
    assert(r@ =~= d@.subrange(start as int, start + 96));
    r
}

/// Decodes the data of a `DepositEvent` log. Data of any other length is a
/// malformed response.
pub fn parse_deposit_log(data: &[u8]) -> (r: Result<DepositLog, FetchError>)
    ensures
        data@.len() != DEPOSIT_EVENT_LEN ==> r == Err::<DepositLog, FetchError>(FetchError::MalformedResponse),
        data@.len() == DEPOSIT_EVENT_LEN ==> r is Ok && ({
            let log = r->Ok_0;
            &&& log.index == le_value(data@.subrange(INDEX_START as int, INDEX_START + 8))
            &&& log.deposit_data.pubkey@ == data@.subrange(PUBKEY_START as int, PUBKEY_START + 48)
            &&& log.deposit_data.withdrawal_credentials@ == data@.subrange(CREDENTIALS_START as int, CREDENTIALS_START + 32)
            &&& log.deposit_data.amount == le_value(data@.subrange(AMOUNT_START as int, AMOUNT_START + 8))
            &&& log.deposit_data.signature@ == data@.subrange(SIGNATURE_START as int, SIGNATURE_START + 96)
        }),
{
    if data.len() != DEPOSIT_EVENT_LEN {
        return Err(FetchError::MalformedResponse);
    }
    let deposit_data = DepositData {
        pubkey: read_48(data, PUBKEY_START),
        withdrawal_credentials: read_32(data, CREDENTIALS_START),
        amount: read_le_u64(data, AMOUNT_START),
        signature: read_96(data, SIGNATURE_START),
    };
    Ok(DepositLog { index: read_le_u64(data, INDEX_START), deposit_data })
}

} // verus!
