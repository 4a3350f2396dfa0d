//! Wire encoding of records, journal entries and control keys.
//!
//! The list-oriented encoding itself is the `rlp` crate's; this module lays
//! out which fields go into which list, and turns the library's fixed-width
//! integers into the byte strings that are encoded.

use vstd::prelude::*;
use vstd::slice::{slice_subrange, slice_to_vec};
use crate::types::{AccountMeta, Address, H256, U256};
use crate::journal::JournalEntry;

verus! {

/// The fields of an encoded record: size, hash, root, balance, nonce.
pub type MetaFields = (usize, Seq<u8>, Seq<u8>, Seq<u8>, Seq<u8>);

/// The parts of an encoded change: the address's bytes and, where the
/// account is set, the record's fields.
pub type ChangeFields = (Seq<u8>, Option<MetaFields>);

/// The parts of an encoded entry: the parent's bytes and the changes.
pub type EntryFields = (Seq<u8>, Seq<ChangeFields>);

/// The encoding of a change, from its parts.
pub open spec fn change_fields_rlp(c: ChangeFields) -> Seq<u8> {
    change_rlp(c.0, match c.1 {
        Some(f) => Some(meta_rlp(f.0, f.1, f.2, f.3, f.4)),
        None => None,
    })
}

/// The encoding of an entry, from its parts.
pub open spec fn entry_fields_rlp(x: EntryFields) -> Seq<u8> {
    entry_rlp(x.0, x.1.map_values(|c: ChangeFields| change_fields_rlp(c)))
}

/// The fields of an encoded base marker: era and id.
pub type BaseFields = (u64, Seq<u8>);

/// The sixteen bytes of a `u128`, most significant first.
pub open spec fn be_u128(x: u128) -> Seq<u8> {
    Seq::new(16, |i: int| ((x >> ((8 * (15 - i)) as u128)) & 0xff) as u8)
}

/// The four bytes of a `u32`, most significant first.
pub open spec fn be_u32(x: u32) -> Seq<u8> {
    Seq::new(4, |i: int| ((x >> ((8 * (3 - i)) as u32)) & 0xff) as u8)
}

/// The encoding of a record from its five fields, each as bytes but the size.
pub uninterp spec fn meta_rlp(size: usize, hash: Seq<u8>, root: Seq<u8>, balance: Seq<u8>, nonce: Seq<u8>) -> Seq<u8>;

/// The five fields read back from an encoded record, if it is well formed.
pub uninterp spec fn meta_fields_of(b: Seq<u8>) -> Option<(usize, Seq<u8>, Seq<u8>, Seq<u8>, Seq<u8>)>;

/// The encoding of one change: `[address, [is_set, item]]`, the item being
/// already encoded.
pub uninterp spec fn change_item_rlp(addr: Seq<u8>, is_set: bool, item: Seq<u8>) -> Seq<u8>;

/// The encoded empty byte string, which stands for "no record".
pub open spec fn empty_item() -> Seq<u8> {
    seq![0x80u8]
}

/// The encoding of one change: `[address, [true, record]]` for a set account,
/// `[address, [false, empty]]` for a deleted one.
pub open spec fn change_rlp(addr: Seq<u8>, record: Option<Seq<u8>>) -> Seq<u8> {
    match record {
        Some(m) => change_item_rlp(addr, true, m),
        None => change_item_rlp(addr, false, empty_item()),
    }
}

/// The parts read back from an encoded change: address, flag, second item.
pub uninterp spec fn change_parts_of(b: Seq<u8>) -> Option<(Seq<u8>, bool, Seq<u8>)>;

/// The encoding of a journal entry: `[parent, [change, ...]]`.
pub uninterp spec fn entry_rlp(parent: Seq<u8>, changes: Seq<Seq<u8>>) -> Seq<u8>;

/// The parent bytes and the encoded changes read back from an encoded entry.
pub uninterp spec fn entry_parts_of(b: Seq<u8>) -> Option<(Seq<u8>, Seq<Seq<u8>>)>;

/// The encoding of a list of byte strings.
pub uninterp spec fn ids_rlp(ids: Seq<Seq<u8>>) -> Seq<u8>;

/// The byte strings read back from an encoded list.
pub uninterp spec fn ids_of(b: Seq<u8>) -> Option<Seq<Seq<u8>>>;

/// The encoding of the canonical base marker `[era, id]`.
pub uninterp spec fn base_rlp(era: u64, id: Seq<u8>) -> Seq<u8>;

/// The era and id bytes read back from an encoded base marker.
pub uninterp spec fn base_of(b: Seq<u8>) -> Option<(u64, Seq<u8>)>;

/// The list `[tag, era, padding]`.
pub uninterp spec fn era_key_parts_rlp(tag: Seq<u8>, era: u64, padding: Seq<u8>) -> Seq<u8>;

/// The tag that namespaces the journal's control keys: the bytes of `"journal"`.
pub open spec fn key_tag() -> Seq<u8> {
    seq![106u8, 111u8, 117u8, 114u8, 110u8, 97u8, 108u8]
}

/// The fixed padding of the journal's control keys: ten zero bytes.
pub open spec fn key_padding() -> Seq<u8> {
    Seq::new(10, |i: int| 0u8)
}

/// The key `["journal", era, padding]` of the candidate list of an era.
pub open spec fn era_key_rlp(era: u64) -> Seq<u8> {
    era_key_parts_rlp(key_tag(), era, key_padding())
}

/// The list `[tag, id, padding]`.
pub uninterp spec fn id_key_parts_rlp(tag: Seq<u8>, id: Seq<u8>, padding: Seq<u8>) -> Seq<u8>;

/// The key `["journal", id, padding]` of the journal entry of a block.
pub open spec fn id_key_rlp(id: Seq<u8>) -> Seq<u8> {
    id_key_parts_rlp(key_tag(), id, key_padding())
}

/// Relies on `u128::to_be_bytes`: the value's bytes, most significant first.
#[verifier::external_body]
fn u128_to_bytes(x: u128) -> (r: Vec<u8>)
    ensures
        r@ == be_u128(x),
        r@.len() == 16,
{
    x.to_be_bytes().to_vec()
}

/// Relies on `u128::from_be_bytes`: the value whose big-endian bytes are `b`.
#[verifier::external_body]
fn u128_from_bytes(b: &[u8]) -> (r: u128)
    requires
        b@.len() == 16,
    ensures
        be_u128(r) == b@,
{
    let mut a = [0u8; 16];
    a.copy_from_slice(b);
    u128::from_be_bytes(a)
}

/// Relies on `u32::to_be_bytes`: the value's bytes, most significant first.
#[verifier::external_body]
fn u32_to_bytes(x: u32) -> (r: Vec<u8>)
    ensures
        r@ == be_u32(x),
        r@.len() == 4,
{
    x.to_be_bytes().to_vec()
}

/// Relies on `u32::from_be_bytes`: the value whose big-endian bytes are `b`.
#[verifier::external_body]
fn u32_from_bytes(b: &[u8]) -> (r: u32)
    requires
        b@.len() == 4,
    ensures
        be_u32(r) == b@,
{
    let mut a = [0u8; 4];
    a.copy_from_slice(b);
    u32::from_be_bytes(a)
}

proof fn lemma_byte_of_u128(x: u128, y: u128, k: u128, bx: u8, by: u8)
    requires
        bx == ((x >> k) & 0xff) as u8,
        by == ((y >> k) & 0xff) as u8,
        bx == by,
    ensures
        ((x >> k) & 0xff) == ((y >> k) & 0xff),
{
    assert((x >> k) & 0xff <= 0xff) by (bit_vector);
    assert((y >> k) & 0xff <= 0xff) by (bit_vector);
}

proof fn lemma_byte_of_u32(x: u32, y: u32, k: u32, bx: u8, by: u8)
    requires
        bx == ((x >> k) & 0xff) as u8,
        by == ((y >> k) & 0xff) as u8,
        bx == by,
    ensures
        ((x >> k) & 0xff) == ((y >> k) & 0xff),
{
    assert((x >> k) & 0xff <= 0xff) by (bit_vector);
    assert((y >> k) & 0xff <= 0xff) by (bit_vector);
}

proof fn lemma_bytes_determine_u128(x: u128, y: u128)
    requires
        ((x >> 120u128) & 0xff) == ((y >> 120u128) & 0xff) &&
        ((x >> 112u128) & 0xff) == ((y >> 112u128) & 0xff) &&
        ((x >> 104u128) & 0xff) == ((y >> 104u128) & 0xff) &&
        ((x >> 96u128) & 0xff) == ((y >> 96u128) & 0xff) &&
        ((x >> 88u128) & 0xff) == ((y >> 88u128) & 0xff) &&
        ((x >> 80u128) & 0xff) == ((y >> 80u128) & 0xff) &&
        ((x >> 72u128) & 0xff) == ((y >> 72u128) & 0xff) &&
        ((x >> 64u128) & 0xff) == ((y >> 64u128) & 0xff) &&
        ((x >> 56u128) & 0xff) == ((y >> 56u128) & 0xff) &&
        ((x >> 48u128) & 0xff) == ((y >> 48u128) & 0xff) &&
        ((x >> 40u128) & 0xff) == ((y >> 40u128) & 0xff) &&
        ((x >> 32u128) & 0xff) == ((y >> 32u128) & 0xff) &&
        ((x >> 24u128) & 0xff) == ((y >> 24u128) & 0xff) &&
        ((x >> 16u128) & 0xff) == ((y >> 16u128) & 0xff) &&
        ((x >> 8u128) & 0xff) == ((y >> 8u128) & 0xff) &&
        ((x >> 0u128) & 0xff) == ((y >> 0u128) & 0xff),
    ensures
        x == y,
{
    assert(x == y) by (bit_vector)
        requires
            ((x >> 120u128) & 0xff) == ((y >> 120u128) & 0xff) &&
        ((x >> 112u128) & 0xff) == ((y >> 112u128) & 0xff) &&
        ((x >> 104u128) & 0xff) == ((y >> 104u128) & 0xff) &&
        ((x >> 96u128) & 0xff) == ((y >> 96u128) & 0xff) &&
        ((x >> 88u128) & 0xff) == ((y >> 88u128) & 0xff) &&
        ((x >> 80u128) & 0xff) == ((y >> 80u128) & 0xff) &&
        ((x >> 72u128) & 0xff) == ((y >> 72u128) & 0xff) &&
        ((x >> 64u128) & 0xff) == ((y >> 64u128) & 0xff) &&
        ((x >> 56u128) & 0xff) == ((y >> 56u128) & 0xff) &&
        ((x >> 48u128) & 0xff) == ((y >> 48u128) & 0xff) &&
        ((x >> 40u128) & 0xff) == ((y >> 40u128) & 0xff) &&
        ((x >> 32u128) & 0xff) == ((y >> 32u128) & 0xff) &&
        ((x >> 24u128) & 0xff) == ((y >> 24u128) & 0xff) &&
        ((x >> 16u128) & 0xff) == ((y >> 16u128) & 0xff) &&
        ((x >> 8u128) & 0xff) == ((y >> 8u128) & 0xff) &&
        ((x >> 0u128) & 0xff) == ((y >> 0u128) & 0xff);
}

/// Distinct values have distinct bytes.
pub proof fn lemma_be_u128_injective(x: u128, y: u128)
    requires
        be_u128(x) == be_u128(y),
    ensures
        x == y,
{
    lemma_byte_of_u128(x, y, 120u128, be_u128(x)[0], be_u128(y)[0]);
    lemma_byte_of_u128(x, y, 112u128, be_u128(x)[1], be_u128(y)[1]);
    lemma_byte_of_u128(x, y, 104u128, be_u128(x)[2], be_u128(y)[2]);
    lemma_byte_of_u128(x, y, 96u128, be_u128(x)[3], be_u128(y)[3]);
    lemma_byte_of_u128(x, y, 88u128, be_u128(x)[4], be_u128(y)[4]);
    lemma_byte_of_u128(x, y, 80u128, be_u128(x)[5], be_u128(y)[5]);
    lemma_byte_of_u128(x, y, 72u128, be_u128(x)[6], be_u128(y)[6]);
    lemma_byte_of_u128(x, y, 64u128, be_u128(x)[7], be_u128(y)[7]);
    lemma_byte_of_u128(x, y, 56u128, be_u128(x)[8], be_u128(y)[8]);
    lemma_byte_of_u128(x, y, 48u128, be_u128(x)[9], be_u128(y)[9]);
    lemma_byte_of_u128(x, y, 40u128, be_u128(x)[10], be_u128(y)[10]);
    lemma_byte_of_u128(x, y, 32u128, be_u128(x)[11], be_u128(y)[11]);
    lemma_byte_of_u128(x, y, 24u128, be_u128(x)[12], be_u128(y)[12]);
    lemma_byte_of_u128(x, y, 16u128, be_u128(x)[13], be_u128(y)[13]);
    lemma_byte_of_u128(x, y, 8u128, be_u128(x)[14], be_u128(y)[14]);
    lemma_byte_of_u128(x, y, 0u128, be_u128(x)[15], be_u128(y)[15]);
    lemma_bytes_determine_u128(x, y);
}

proof fn lemma_bytes_determine_u32(x: u32, y: u32)
    requires
        ((x >> 24u32) & 0xff) == ((y >> 24u32) & 0xff) &&
        ((x >> 16u32) & 0xff) == ((y >> 16u32) & 0xff) &&
        ((x >> 8u32) & 0xff) == ((y >> 8u32) & 0xff) &&
        ((x >> 0u32) & 0xff) == ((y >> 0u32) & 0xff),
    ensures
        x == y,
{
    assert(x == y) by (bit_vector)
        requires
            ((x >> 24u32) & 0xff) == ((y >> 24u32) & 0xff) &&
        ((x >> 16u32) & 0xff) == ((y >> 16u32) & 0xff) &&
        ((x >> 8u32) & 0xff) == ((y >> 8u32) & 0xff) &&
        ((x >> 0u32) & 0xff) == ((y >> 0u32) & 0xff);
}

/// Distinct values have distinct bytes.
pub proof fn lemma_be_u32_injective(x: u32, y: u32)
    requires
        be_u32(x) == be_u32(y),
    ensures
        x == y,
{
    lemma_byte_of_u32(x, y, 24u32, be_u32(x)[0], be_u32(y)[0]);
    lemma_byte_of_u32(x, y, 16u32, be_u32(x)[1], be_u32(y)[1]);
    lemma_byte_of_u32(x, y, 8u32, be_u32(x)[2], be_u32(y)[2]);
    lemma_byte_of_u32(x, y, 0u32, be_u32(x)[3], be_u32(y)[3]);
    lemma_bytes_determine_u32(x, y);
}

/// A pair of halves is determined by its 32 bytes.
pub proof fn lemma_halves_injective(hi: u128, lo: u128, hi2: u128, lo2: u128)
    requires
        bytes_of_halves(hi, lo) == bytes_of_halves(hi2, lo2),
    ensures
        hi == hi2 && lo == lo2,
{
    let b = bytes_of_halves(hi, lo);
    assert(b.subrange(0, 16) =~= be_u128(hi));
    assert(bytes_of_halves(hi2, lo2).subrange(0, 16) =~= be_u128(hi2));
    assert(b.subrange(16, 32) =~= be_u128(lo));
    assert(bytes_of_halves(hi2, lo2).subrange(16, 32) =~= be_u128(lo2));
    lemma_be_u128_injective(hi, hi2);
    lemma_be_u128_injective(lo, lo2);
}

/// The 32 bytes of a pair of halves, high half first.
pub open spec fn bytes_of_halves(hi: u128, lo: u128) -> Seq<u8> {
    be_u128(hi) + be_u128(lo)
}

pub open spec fn h256_bytes_spec(h: H256) -> Seq<u8> {
    bytes_of_halves(h.hi, h.lo)
}

/// An integer's bytes, as stored: big-endian, without leading zero bytes.
pub open spec fn u256_bytes_spec(u: U256) -> Seq<u8> {
    strip_zeros(bytes_of_halves(u.hi, u.lo))
}

/// `s` without its leading zero bytes.
pub open spec fn strip_zeros(s: Seq<u8>) -> Seq<u8>
    decreases s.len(),
{
    if s.len() > 0 && s[0] == 0 {
        strip_zeros(s.drop_first())
    } else {
        s
    }
}

/// Whether `t` is a stored integer of at most 256 bits: no leading zero byte.
pub open spec fn int_bytes_ok(t: Seq<u8>) -> bool {
    t.len() <= 32 && (t.len() == 0 || t[0] != 0)
}

/// Zero bytes in front of `t`, up to 32 bytes in all.
pub open spec fn pad32(t: Seq<u8>) -> Seq<u8> {
    Seq::new((32 - t.len()) as nat, |i: int| 0u8) + t
}

/// Stripping the `k` leading zeros of `s` leaves the rest of `s`.
pub proof fn lemma_strip_prefix(s: Seq<u8>, k: int)
    requires
        0 <= k <= s.len(),
        forall|i: int| 0 <= i < k ==> s[i] == 0,
        k == s.len() || s[k] != 0,
    ensures
        strip_zeros(s) == s.subrange(k, s.len() as int),
    decreases k,
{
    if k == 0 {
        assert(s.subrange(0, s.len() as int) =~= s);
    } else {
        lemma_strip_prefix(s.drop_first(), k - 1);
        assert(s.drop_first().subrange(k - 1, s.len() - 1) =~= s.subrange(k, s.len() as int));
    }
}

/// A stored integer of 32 bytes at most is stripped back to itself.
pub proof fn lemma_strip_pad(t: Seq<u8>)
    requires
        int_bytes_ok(t),
    ensures
        strip_zeros(pad32(t)) == t,
        pad32(t).len() == 32,
{
    let p = pad32(t);
    let k = 32 - t.len();
    lemma_strip_prefix(p, k);
    assert(p.subrange(k, 32) =~= t);
}

/// Padding the stripped bytes of a 32-byte string gives it back.
pub proof fn lemma_pad_strip(s: Seq<u8>)
    requires
        s.len() == 32,
    ensures
        pad32(strip_zeros(s)) == s,
        int_bytes_ok(strip_zeros(s)),
{
    let k = choose_first_nonzero(s);
    lemma_strip_prefix(s, k);
    assert(pad32(s.subrange(k, 32)) =~= s);
}

/// The number of leading zero bytes of `s`.
pub proof fn choose_first_nonzero(s: Seq<u8>) -> (k: int)
    ensures
        0 <= k <= s.len(),
        forall|i: int| 0 <= i < k ==> s[i] == 0,
        k == s.len() || s[k] != 0,
    decreases s.len(),
{
    if s.len() > 0 && s[0] == 0 {
        let k = choose_first_nonzero(s.drop_first());
        assert forall|i: int| 0 <= i < k + 1 implies s[i] == 0 by {
            if i > 0 {
                assert(s[i] == s.drop_first()[i - 1]);
            }
        }
        k + 1
    } else {
        0
    }
}

/// Two integers with the same stored bytes are equal.
pub proof fn lemma_u256_bytes_injective(a: U256, b: U256)
    requires
        u256_bytes_spec(a) == u256_bytes_spec(b),
    ensures
        a == b,
{
    lemma_pad_strip(bytes_of_halves(a.hi, a.lo));
    lemma_pad_strip(bytes_of_halves(b.hi, b.lo));
    lemma_halves_injective(a.hi, a.lo, b.hi, b.lo);
}

/// The 20 bytes of an address, high part first.
pub open spec fn address_bytes_spec(a: Address) -> Seq<u8> {
    be_u32(a.hi) + be_u128(a.lo)
}

fn halves_to_bytes(hi: u128, lo: u128) -> (r: Vec<u8>)
    ensures
        r@ == bytes_of_halves(hi, lo),
        r@.len() == 32,
{
    let mut r = u128_to_bytes(hi);
    let mut l = u128_to_bytes(lo);
    r.append(&mut l);
    r
}

/// Splits 32 bytes into their high and low halves.
fn halves_from_bytes(b: &Vec<u8>) -> (r: Option<(u128, u128)>)
    ensures
        r is Some <==> b@.len() == 32,
        r matches Some((hi, lo)) ==> bytes_of_halves(hi, lo) == b@,
{
    if b.len() != 32 {
        return None;
    }
    let hi = u128_from_bytes(slice_subrange(b.as_slice(), 0, 16));
    let lo = u128_from_bytes(slice_subrange(b.as_slice(), 16, 32));
    assert(b@ =~= b@.subrange(0, 16) + b@.subrange(16, 32));
    Some((hi, lo))
}

pub fn h256_bytes(h: &H256) -> (r: Vec<u8>)
    ensures
        r@ == h256_bytes_spec(*h),
        r@.len() == 32,
{
    halves_to_bytes(h.hi, h.lo)
}

pub fn h256_from_bytes(b: &Vec<u8>) -> (r: Option<H256>)
    ensures
        r is Some <==> b@.len() == 32,
        r matches Some(h) ==> h256_bytes_spec(h) == b@,
{
    match halves_from_bytes(b) {
        Some((hi, lo)) => Some(H256 { hi, lo }),
        None => None,
    }
}

pub fn u256_bytes(u: &U256) -> (r: Vec<u8>)
    ensures
        r@ == u256_bytes_spec(*u),
        int_bytes_ok(r@),
{
    let full = halves_to_bytes(u.hi, u.lo);
    let mut k: usize = 0;
    while k < 32 && full[k] == 0
        invariant
            k <= 32,
            full@.len() == 32,
            forall|i: int| 0 <= i < k ==> full@[i] == 0,
        decreases 32 - k,
    {
        k = k + 1;
    }
    proof {
        lemma_strip_prefix(full@, k as int);
        lemma_pad_strip(full@);
    }
    slice_to_vec(slice_subrange(full.as_slice(), k, 32))
}

pub fn u256_from_bytes(b: &Vec<u8>) -> (r: Option<U256>)
    ensures
        r is Some <==> int_bytes_ok(b@),
        r matches Some(u) ==> u256_bytes_spec(u) == b@,
{
    if b.len() > 32 || (b.len() > 0 && b[0] == 0) {
        return None;
    }
    let mut padded: Vec<u8> = Vec::new();
    while padded.len() < 32 - b.len()
        invariant
            b@.len() <= 32,
            padded@.len() <= 32 - b@.len(),
            forall|i: int| 0 <= i < padded@.len() ==> padded@[i] == 0,
        decreases 32 - b@.len() - padded@.len(),
    {
        padded.push(0);
    }
    padded.extend_from_slice(b.as_slice());
    proof {
        assert(padded@ =~= pad32(b@));
        lemma_strip_pad(b@);
    }
    match halves_from_bytes(&padded) {
        Some((hi, lo)) => Some(U256 { hi, lo }),
        None => None,
    }
}

pub fn address_bytes(a: &Address) -> (r: Vec<u8>)
    ensures
        r@ == address_bytes_spec(*a),
        r@.len() == 20,
{
    let mut r = u32_to_bytes(a.hi);
    let mut l = u128_to_bytes(a.lo);
    r.append(&mut l);
    r
}

pub fn address_from_bytes(b: &Vec<u8>) -> (r: Option<Address>)
    ensures
        r is Some <==> b@.len() == 20,
        r matches Some(a) ==> address_bytes_spec(a) == b@,
{
    if b.len() != 20 {
        return None;
    }
    let hi = u32_from_bytes(slice_subrange(b.as_slice(), 0, 4));
    let lo = u128_from_bytes(slice_subrange(b.as_slice(), 4, 20));
    assert(b@ =~= b@.subrange(0, 4) + b@.subrange(4, 20));
    Some(Address { hi, lo })
}

/// Relies on `rlp::RlpStream`: a five-item list of the record's fields.
#[verifier::external_body]
fn rlp_meta(size: usize, hash: &Vec<u8>, root: &Vec<u8>, balance: &Vec<u8>, nonce: &Vec<u8>) -> (r: Vec<u8>)
    ensures
        r@ == meta_rlp(size, hash@, root@, balance@, nonce@),
{
    let mut s = rlp::RlpStream::new_list(5);
    s.append(&size).append(hash).append(root).append(balance).append(nonce);
    s.out().to_vec()
}

/// Relies on `rlp::Rlp::val_at`: the five fields of an encoded record; the
/// fields that `rlp_meta` appended are read back as they were.
#[verifier::external_body]
fn rlp_meta_fields(b: &[u8]) -> (r: Option<(usize, Vec<u8>, Vec<u8>, Vec<u8>, Vec<u8>)>)
    ensures
        r matches Some((s, h, t, a, n)) ==> meta_fields_of(b@) == Some((s, h@, t@, a@, n@)),
        r is None ==> meta_fields_of(b@) is None,
        r is None ==> forall|f: MetaFields| #[trigger] meta_rlp(f.0, f.1, f.2, f.3, f.4) != b@,
        r matches Some((s2, h2, t2, a2, n2)) ==> forall|f: MetaFields|
            #[trigger] meta_rlp(f.0, f.1, f.2, f.3, f.4) == b@
            ==> s2 == f.0 && h2@ == f.1 && t2@ == f.2 && a2@ == f.3 && n2@ == f.4,
{
    let r = rlp::Rlp::new(b);
    Some((r.val_at(0).ok()?, r.val_at(1).ok()?, r.val_at(2).ok()?, r.val_at(3).ok()?, r.val_at(4).ok()?))
}

/// Relies on `rlp::RlpStream`: `[address, [is_set, item]]`, the item being
/// appended as already encoded.
#[verifier::external_body]
fn rlp_change(addr: &Vec<u8>, is_set: bool, item: &Vec<u8>) -> (r: Vec<u8>)
    ensures
        r@ == change_item_rlp(addr@, is_set, item@),
{
    let mut s = rlp::RlpStream::new_list(2);
    s.append(addr).begin_list(2);
    s.append(&is_set).append_raw(item, 1);
    s.out().to_vec()
}

/// Relies on `rlp::Rlp`: the address, the flag and the raw second item of an
/// encoded change; a change that `rlp_change` wrote, with a record from
/// `rlp_meta`, is read back as it was.
#[verifier::external_body]
fn rlp_change_parts(b: &[u8]) -> (r: Option<(Vec<u8>, bool, Vec<u8>)>)
    ensures
        r matches Some((a, f, m)) ==> change_parts_of(b@) == Some((a@, f, m@)),
        r is None ==> change_parts_of(b@) is None,
        r is None ==> forall|c: ChangeFields| #[trigger] change_fields_rlp(c) != b@,
        r matches Some((a2, f2, m2)) ==> forall|c: ChangeFields| #[trigger] change_fields_rlp(c) == b@
            ==> a2@ == c.0 && f2 == (c.1 is Some)
            && (c.1 matches Some(x) ==> m2@ == meta_rlp(x.0, x.1, x.2, x.3, x.4)),
{
    let r = rlp::Rlp::new(b);
    let m = r.at(1).ok()?;
    Some((r.val_at(0).ok()?, m.val_at(0).ok()?, m.at(1).ok()?.as_raw().to_vec()))
}

/// Relies on `rlp::RlpStream`: `[parent, [change, ...]]`, each change appended as an
/// already encoded item.
#[verifier::external_body]
fn rlp_entry(parent: &Vec<u8>, changes: &Vec<Vec<u8>>) -> (r: Vec<u8>)
    ensures
        r@ == entry_rlp(parent@, changes@.map_values(|c: Vec<u8>| c@)),
{
    let mut s = rlp::RlpStream::new_list(2);
    s.append(parent).begin_list(changes.len());
    s.append_raw(&changes.concat(), changes.len());
    s.out().to_vec()
}

/// Relies on `rlp::Rlp`: the parent and the raw items of the change list of an
/// encoded entry; an entry that `rlp_entry` wrote, from changes that
/// `rlp_change` wrote, is read back as it was.
#[verifier::external_body]
fn rlp_entry_parts(b: &[u8]) -> (r: Option<(Vec<u8>, Vec<Vec<u8>>)>)
    ensures
        r matches Some((p, cs)) ==> entry_parts_of(b@) == Some((p@, cs@.map_values(|c: Vec<u8>| c@))),
        r is None ==> entry_parts_of(b@) is None,
        r is None ==> forall|x: EntryFields| #[trigger] entry_fields_rlp(x) != b@,
        r matches Some((p2, cs2)) ==> forall|x: EntryFields| #[trigger] entry_fields_rlp(x) == b@
            ==> p2@ == x.0 && cs2@.map_values(|c: Vec<u8>| c@)
            == x.1.map_values(|c: ChangeFields| change_fields_rlp(c)),
{
    let r = rlp::Rlp::new(b);
    let list = r.at(1).ok()?;
    Some((r.val_at(0).ok()?, list.iter().map(|c| c.as_raw().to_vec()).collect()))
}

/// Relies on `rlp::encode_list`: a list of byte strings.
#[verifier::external_body]
fn rlp_ids(ids: &Vec<Vec<u8>>) -> (r: Vec<u8>)
    ensures
        r@ == ids_rlp(ids@.map_values(|c: Vec<u8>| c@)),
{
    rlp::encode_list::<Vec<u8>, Vec<u8>>(ids).to_vec()
}

/// Relies on `rlp::Rlp::as_list`: the byte strings of an encoded list; those
/// that `rlp_ids` encoded are read back as they were.
#[verifier::external_body]
fn rlp_ids_of(b: &[u8]) -> (r: Option<Vec<Vec<u8>>>)
    ensures
        r matches Some(ids) ==> ids_of(b@) == Some(ids@.map_values(|c: Vec<u8>| c@)),
        r is None ==> ids_of(b@) is None,
        r is None ==> forall|ids: Seq<Seq<u8>>| #[trigger] ids_rlp(ids) != b@,
        r matches Some(v) ==> forall|ids: Seq<Seq<u8>>| #[trigger] ids_rlp(ids) == b@
            ==> v@.map_values(|c: Vec<u8>| c@) == ids,
{
    rlp::Rlp::new(b).as_list::<Vec<u8>>().ok()
}

/// Relies on `rlp::RlpStream`: the two-item list `[era, id]`.
#[verifier::external_body]
fn rlp_base(era: u64, id: &Vec<u8>) -> (r: Vec<u8>)
    ensures
        r@ == base_rlp(era, id@),
{
    let mut s = rlp::RlpStream::new_list(2);
    s.append(&era).append(id);
    s.out().to_vec()
}

/// Relies on `rlp::Rlp::val_at`: the era and id of an encoded base marker;
/// those that `rlp_base` appended are read back as they were.
#[verifier::external_body]
fn rlp_base_of(b: &[u8]) -> (r: Option<(u64, Vec<u8>)>)
    ensures
        r matches Some((e, id)) ==> base_of(b@) == Some((e, id@)),
        r is None ==> base_of(b@) is None,
        r is None ==> forall|x: BaseFields| #[trigger] base_rlp(x.0, x.1) != b@,
        r matches Some((e2, id2)) ==> forall|x: BaseFields| #[trigger] base_rlp(x.0, x.1) == b@
            ==> e2 == x.0 && id2@ == x.1,
{
    let r = rlp::Rlp::new(b);
    Some((r.val_at(0).ok()?, r.val_at(1).ok()?))
}

/// Relies on `rlp::RlpStream`: the three-item list `[tag, era, padding]`. With
/// a 7-byte tag and 10 bytes of padding the list's payload is 8 + (1 to 9) + 11
/// bytes behind a one-byte header.
#[verifier::external_body]
fn rlp_era_key(tag: &Vec<u8>, era: u64, padding: &Vec<u8>) -> (r: Vec<u8>)
    ensures
        r@ == era_key_parts_rlp(tag@, era, padding@),
        r@ == era_key_parts_rlp(tag@, era, padding@) && tag@.len() == 7 && padding@.len() == 10
            ==> 21 <= r@.len() <= 29,
{
    let mut s = rlp::RlpStream::new_list(3);
    s.append(tag).append(&era).append(padding);
    s.out().to_vec()
}

/// Relies on `rlp::RlpStream`: the three-item list `[tag, id, padding]`. With
/// a 7-byte tag, a 32-byte id and 10 bytes of padding the payload is 8 + 33 + 11
/// bytes behind a one-byte header.
#[verifier::external_body]
fn rlp_id_key(tag: &Vec<u8>, id: &Vec<u8>, padding: &Vec<u8>) -> (r: Vec<u8>)
    ensures
        r@ == id_key_parts_rlp(tag@, id@, padding@),
        r@ == id_key_parts_rlp(tag@, id@, padding@) && tag@.len() == 7 && id@.len() == 32
            && padding@.len() == 10 ==> r@.len() == 53,
{
    let mut s = rlp::RlpStream::new_list(3);
    s.append(tag).append(id).append(padding);
    s.out().to_vec()
}

/// The encoding of a record.
pub open spec fn meta_bytes(m: AccountMeta) -> Seq<u8> {
    meta_rlp(m.code_size, h256_bytes_spec(m.code_hash), h256_bytes_spec(m.storage_root),
        u256_bytes_spec(m.balance), u256_bytes_spec(m.nonce))
}

/// Whether `b` decodes to the record `m`: its five fields are `m`'s.
pub open spec fn meta_decodes_to(b: Seq<u8>, m: AccountMeta) -> bool {
    meta_fields_of(b) == Some((m.code_size, h256_bytes_spec(m.code_hash),
        h256_bytes_spec(m.storage_root), u256_bytes_spec(m.balance), u256_bytes_spec(m.nonce)))
}

/// Whether `b` holds five fields whose four byte fields have 32 bytes each.
pub open spec fn meta_decodable(b: Seq<u8>) -> bool {
    meta_fields_of(b) matches Some((s, h, t, a, n))
        && h.len() == 32 && t.len() == 32 && int_bytes_ok(a) && int_bytes_ok(n)
}

/// The encoding of one change.
pub open spec fn change_bytes(c: (Address, Option<AccountMeta>)) -> Seq<u8> {
    change_rlp(address_bytes_spec(c.0), match c.1 { Some(m) => Some(meta_bytes(m)), None => None })
}

/// The encoding of a journal entry.
pub open spec fn entry_bytes(e: JournalEntry) -> Seq<u8> {
    entry_rlp(h256_bytes_spec(e.parent), e.entries@.map_values(|c: (Address, Option<AccountMeta>)| change_bytes(c)))
}

/// The encoding of a list of block ids.
pub open spec fn ids_bytes(ids: Seq<H256>) -> Seq<u8> {
    ids_rlp(ids.map_values(|h: H256| h256_bytes_spec(h)))
}

/// Encodes an account record as the list `[size, hash, root, balance, nonce]`.
pub fn encode_meta(m: &AccountMeta) -> (r: Vec<u8>)
    ensures
        r@ == meta_bytes(*m),
{
    rlp_meta(m.code_size, &h256_bytes(&m.code_hash), &h256_bytes(&m.storage_root),
        &u256_bytes(&m.balance), &u256_bytes(&m.nonce))
}

/// The fields of a record, as they are encoded.
pub open spec fn meta_fields(m: AccountMeta) -> MetaFields {
    (m.code_size, h256_bytes_spec(m.code_hash), h256_bytes_spec(m.storage_root),
        u256_bytes_spec(m.balance), u256_bytes_spec(m.nonce))
}

/// The parts of a change, as they are encoded.
pub open spec fn change_fields(c: (Address, Option<AccountMeta>)) -> ChangeFields {
    (address_bytes_spec(c.0), match c.1 {
        Some(m) => Some(meta_fields(m)),
        None => None,
    })
}

/// An address is determined by its 20 bytes.
pub proof fn lemma_address_injective(a: Address, b: Address)
    requires
        address_bytes_spec(a) == address_bytes_spec(b),
    ensures
        a == b,
{
    let x = address_bytes_spec(a);
    let y = address_bytes_spec(b);
    assert(x.subrange(0, 4) =~= be_u32(a.hi));
    assert(y.subrange(0, 4) =~= be_u32(b.hi));
    assert(x.subrange(4, 20) =~= be_u128(a.lo));
    assert(y.subrange(4, 20) =~= be_u128(b.lo));
    lemma_be_u32_injective(a.hi, b.hi);
    lemma_be_u128_injective(a.lo, b.lo);
}

/// Decodes an account record; `None` where the bytes hold no such record.
pub fn decode_meta(b: &[u8]) -> (r: Option<AccountMeta>)
    ensures
        r is Some <==> meta_decodable(b@),
        r matches Some(m) ==> meta_decodes_to(b@, m),
        forall|m: AccountMeta| #[trigger] meta_bytes(m) == b@ ==> r == Some(m),
{
    let fields = rlp_meta_fields(b);
    proof {
        assert forall|m: AccountMeta| #[trigger] meta_bytes(m) == b@ implies (fields matches Some((s, h, t, a, n))
            && s == m.code_size && h@ == h256_bytes_spec(m.code_hash) && t@ == h256_bytes_spec(m.storage_root)
            && a@ == u256_bytes_spec(m.balance) && n@ == u256_bytes_spec(m.nonce)
            && int_bytes_ok(a@) && int_bytes_ok(n@)) by {
            lemma_pad_strip(bytes_of_halves(m.balance.hi, m.balance.lo));
            lemma_pad_strip(bytes_of_halves(m.nonce.hi, m.nonce.lo));
            let f: MetaFields = (m.code_size, h256_bytes_spec(m.code_hash), h256_bytes_spec(m.storage_root),
                u256_bytes_spec(m.balance), u256_bytes_spec(m.nonce));
            assert(meta_rlp(f.0, f.1, f.2, f.3, f.4) == b@);
        }
    }
    match fields {
        None => None,
        Some((size, h, t, a, n)) => {
            let code_hash = h256_from_bytes(&h);
            let storage_root = h256_from_bytes(&t);
            let balance = u256_from_bytes(&a);
            let nonce = u256_from_bytes(&n);
            match (code_hash, storage_root, balance, nonce) {
                (Some(code_hash), Some(storage_root), Some(balance), Some(nonce)) => {
                    let r = AccountMeta { code_size: size, code_hash, storage_root, balance, nonce };
                    proof {
                        assert forall|m: AccountMeta| #[trigger] meta_bytes(m) == b@ implies r == m by {
                            lemma_halves_injective(code_hash.hi, code_hash.lo, m.code_hash.hi, m.code_hash.lo);
                            lemma_halves_injective(storage_root.hi, storage_root.lo, m.storage_root.hi, m.storage_root.lo);
                            lemma_u256_bytes_injective(balance, m.balance);
                            lemma_u256_bytes_injective(nonce, m.nonce);
                        }
                    }
                    Some(r)
                },
                _ => None,
            }
        },
    }
}

/// Encodes a journal entry as `[parent, [[address, [is_set, record_or_empty]], ...]]`.
pub fn encode_entry(e: &JournalEntry) -> (r: Vec<u8>)
    ensures
        r@ == entry_bytes(*e),
{
    let mut changes: Vec<Vec<u8>> = Vec::new();
    let mut i: usize = 0;
    while i < e.entries.len()
        invariant
            i <= e.entries@.len(),
            changes@.len() == i,
            forall|j: int| 0 <= j < i ==> changes@[j]@ == change_bytes(e.entries@[j]),
        decreases e.entries@.len() - i,
    {
        let a = address_bytes(&e.entries[i].0);
        let c = match &e.entries[i].1 {
            Some(m) => {
                let mb = encode_meta(m);
                rlp_change(&a, true, &mb)
            },
            None => {
                let empty: Vec<u8> = vec![0x80u8];
                assert(empty@ =~= empty_item());
                rlp_change(&a, false, &empty)
            },
        };
        changes.push(c);
        i = i + 1;
    }
    let r = rlp_entry(&h256_bytes(&e.parent), &changes);
    assert(changes@.map_values(|c: Vec<u8>| c@) =~= e.entries@.map_values(
        |c: (Address, Option<AccountMeta>)| change_bytes(c)));
    r
}

/// Whether the encoded change `c` decodes to `x`.
pub open spec fn change_decodes_to(c: Seq<u8>, x: (Address, Option<AccountMeta>)) -> bool {
    change_parts_of(c) matches Some((a, f, m)) && a == address_bytes_spec(x.0) && f == (x.1 is Some)
        && (x.1 matches Some(meta) ==> meta_decodes_to(m, meta))
}

/// Whether `b` decodes to the journal entry `e`: its parent and each of its changes.
pub open spec fn entry_decodes_to(b: Seq<u8>, e: JournalEntry) -> bool {
    entry_parts_of(b) matches Some((p, cs)) && p == h256_bytes_spec(e.parent)
        && cs.len() == e.entries@.len()
        && forall|i: int| 0 <= i < cs.len() ==> change_decodes_to(#[trigger] cs[i], e.entries@[i])
}

/// Whether `b` is the encoding of some journal entry.
pub open spec fn encodes_entry(b: Seq<u8>) -> bool {
    exists|e: JournalEntry| #[trigger] entry_bytes(e) == b
}

/// Decodes a journal entry; `None` where the bytes hold no such entry.
pub fn decode_entry(b: &[u8]) -> (r: Option<JournalEntry>)
    ensures
        r matches Some(e) ==> entry_decodes_to(b@, e),
        entry_parts_of(b@) is None ==> r is None,
        forall|e: JournalEntry| #[trigger] entry_bytes(e) == b@
            ==> (r matches Some(d) && d.parent == e.parent && d.entries@ == e.entries@),
{
    let got = rlp_entry_parts(b);
    proof {
        assert forall|e: JournalEntry| #[trigger] entry_bytes(e) == b@ implies (got matches Some((p, cs))
            && p@ == h256_bytes_spec(e.parent)
            && cs@.map_values(|c: Vec<u8>| c@) == e.entries@.map_values(
                |c: (Address, Option<AccountMeta>)| change_bytes(c))) by {
            let x: EntryFields = (h256_bytes_spec(e.parent),
                e.entries@.map_values(|c: (Address, Option<AccountMeta>)| change_fields(c)));
            assert(x.1.map_values(|c: ChangeFields| change_fields_rlp(c)) =~= e.entries@.map_values(
                |c: (Address, Option<AccountMeta>)| change_bytes(c)));
            assert(entry_fields_rlp(x) == b@);
        }
    }
    let (p, cs) = match got {
        Some(x) => x,
        None => return None,
    };
    let parent = match h256_from_bytes(&p) {
        Some(h) => h,
        None => return None,
    };
    proof {
        assert forall|e: JournalEntry| #[trigger] entry_bytes(e) == b@ implies parent == e.parent by {
            lemma_halves_injective(parent.hi, parent.lo, e.parent.hi, e.parent.lo);
        }
    }
    let mut entries: Vec<(Address, Option<AccountMeta>)> = Vec::new();
    let mut i: usize = 0;
    while i < cs.len()
        invariant
            i <= cs@.len(),
            entries@.len() == i,
            forall|j: int| 0 <= j < i ==> change_decodes_to(cs@[j]@, #[trigger] entries@[j]),
            forall|e: JournalEntry| #[trigger] entry_bytes(e) == b@ ==> parent == e.parent
                && cs@.map_values(|c: Vec<u8>| c@) == e.entries@.map_values(
                    |c: (Address, Option<AccountMeta>)| change_bytes(c))
                && forall|j: int| 0 <= j < i ==> entries@[j] == e.entries@[j],
        decreases cs@.len() - i,
    {
        let ghost ci = cs@[i as int]@;
        proof {
            assert forall|e: JournalEntry| #[trigger] entry_bytes(e) == b@
                implies ci == change_fields_rlp(change_fields(e.entries@[i as int])) by {
                assert(cs@.map_values(|c: Vec<u8>| c@)[i as int] == ci);
            }
        }
        let got_c = rlp_change_parts(cs[i].as_slice());
        let (a, f, m) = match got_c {
            Some(x) => x,
            None => {
                proof {
                    assert forall|e: JournalEntry| #[trigger] entry_bytes(e) == b@ implies false by {
                        assert(change_fields_rlp(change_fields(e.entries@[i as int])) == ci);
                    }
                }
                return None;
            },
        };
        proof {
            assert forall|e: JournalEntry| #[trigger] entry_bytes(e) == b@ implies ({
                let c = e.entries@[i as int];
                a@ == address_bytes_spec(c.0) && f == (c.1 is Some)
                    && (c.1 matches Some(x) ==> m@ == meta_bytes(x))
            }) by {
                assert(change_fields_rlp(change_fields(e.entries@[i as int])) == ci);
            }
        }
        let addr = match address_from_bytes(&a) {
            Some(x) => x,
            None => {
                proof {
                    assert forall|e: JournalEntry| #[trigger] entry_bytes(e) == b@ implies false by {
                        assert(a@ == address_bytes_spec(e.entries@[i as int].0));
                    }
                }
                return None;
            },
        };
        let delta = if f {
            match decode_meta(m.as_slice()) {
                Some(meta) => Some(meta),
                None => {
                    proof {
                        assert forall|e: JournalEntry| #[trigger] entry_bytes(e) == b@ implies false by {
                            let c = e.entries@[i as int];
                            assert(meta_bytes(c.1->Some_0) == m@);
                        }
                    }
                    return None;
                },
            }
        } else {
            None
        };
        proof {
            assert forall|e: JournalEntry| #[trigger] entry_bytes(e) == b@
                implies (addr, delta) == e.entries@[i as int] by {
                let c = e.entries@[i as int];
                lemma_address_injective(addr, c.0);
                if f {
                    assert(meta_bytes(c.1->Some_0) == m@);
                }
            }
        }
        entries.push((addr, delta));
        i = i + 1;
    }
    let ghost css = cs@.map_values(|c: Vec<u8>| c@);
    assert forall|j: int| 0 <= j < css.len() implies change_decodes_to(#[trigger] css[j], entries@[j]) by {
        assert(css[j] == cs@[j]@);
    }
    let r = JournalEntry { parent, entries };
    proof {
        assert forall|e: JournalEntry| #[trigger] entry_bytes(e) == b@ implies r.entries@ == e.entries@ by {
            let me = e.entries@.map_values(|c: (Address, Option<AccountMeta>)| change_bytes(c));
            assert(css.len() == me.len());
            assert(r.entries@ =~= e.entries@);
        }
    }
    Some(r)
}

/// Encodes a list of block ids.
pub fn encode_ids(ids: &Vec<H256>) -> (r: Vec<u8>)
    ensures
        r@ == ids_bytes(ids@),
{
    let mut bs: Vec<Vec<u8>> = Vec::new();
    let mut i: usize = 0;
    while i < ids.len()
        invariant
            i <= ids@.len(),
            bs@.len() == i,
            forall|j: int| 0 <= j < i ==> bs@[j]@ == h256_bytes_spec(ids@[j]),
        decreases ids@.len() - i,
    {
        bs.push(h256_bytes(&ids[i]));
        i = i + 1;
    }
    let r = rlp_ids(&bs);
    assert(bs@.map_values(|c: Vec<u8>| c@) =~= ids@.map_values(|h: H256| h256_bytes_spec(h)));
    r
}

/// Decodes a list of block ids; `None` where the bytes hold no such list.
pub fn decode_ids(b: &[u8]) -> (r: Option<Vec<H256>>)
    ensures
        r matches Some(ids) ==> ids_of(b@) == Some(ids@.map_values(|h: H256| h256_bytes_spec(h))),
        ids_of(b@) is None ==> r is None,
        forall|ids: Seq<H256>| #[trigger] ids_bytes(ids) == b@ ==> (r matches Some(v) && v@ == ids),
{
    let got = rlp_ids_of(b);
    proof {
        assert forall|w: Seq<H256>| #[trigger] ids_bytes(w) == b@ implies (got matches Some(v)
            && v@.map_values(|c: Vec<u8>| c@) == w.map_values(|h: H256| h256_bytes_spec(h))) by {
            assert(ids_rlp(w.map_values(|h: H256| h256_bytes_spec(h))) == b@);
        }
    }
    let bs = match got {
        Some(x) => x,
        None => return None,
    };
    let mut ids: Vec<H256> = Vec::new();
    let mut i: usize = 0;
    while i < bs.len()
        invariant
            i <= bs@.len(),
            ids@.len() == i,
            forall|j: int| 0 <= j < i ==> h256_bytes_spec(ids@[j]) == bs@[j]@,
            forall|w: Seq<H256>| #[trigger] ids_bytes(w) == b@
                ==> bs@.map_values(|c: Vec<u8>| c@) == w.map_values(|h: H256| h256_bytes_spec(h)),
        decreases bs@.len() - i,
    {
        match h256_from_bytes(&bs[i]) {
            Some(h) => ids.push(h),
            None => {
                proof {
                    assert forall|w: Seq<H256>| #[trigger] ids_bytes(w) == b@ implies false by {
                        let mw = w.map_values(|h: H256| h256_bytes_spec(h));
                        assert(bs@.map_values(|c: Vec<u8>| c@)[i as int] == mw[i as int]);
                    }
                }
                return None;
            },
        }
        i = i + 1;
    }
    assert(bs@.map_values(|c: Vec<u8>| c@) =~= ids@.map_values(|h: H256| h256_bytes_spec(h)));
    proof {
        assert forall|w: Seq<H256>| #[trigger] ids_bytes(w) == b@ implies ids@ == w by {
            let mw = w.map_values(|h: H256| h256_bytes_spec(h));
            let mi = ids@.map_values(|h: H256| h256_bytes_spec(h));
            assert(mw == mi);
            assert forall|j: int| 0 <= j < w.len() implies ids@[j] == w[j] by {
                assert(mw[j] == mi[j]);
                lemma_halves_injective(ids@[j].hi, ids@[j].lo, w[j].hi, w[j].lo);
            }
            assert(ids@ =~= w);
        }
    }
    Some(ids)
}

/// Encodes the canonical base marker `[era, id]`.
pub fn encode_base(era: u64, id: &H256) -> (r: Vec<u8>)
    ensures
        r@ == base_rlp(era, h256_bytes_spec(*id)),
{
    rlp_base(era, &h256_bytes(id))
}

/// Decodes the canonical base marker; `None` where the bytes hold no such marker.
pub fn decode_base(b: &[u8]) -> (r: Option<(u64, H256)>)
    ensures
        r is Some <==> (base_of(b@) matches Some((e, id)) && id.len() == 32),
        r matches Some((e, id)) ==> base_of(b@) == Some((e, h256_bytes_spec(id))),
        forall|e: u64, id: H256| #[trigger] base_rlp(e, h256_bytes_spec(id)) == b@ ==> r == Some((e, id)),
{
    let got = rlp_base_of(b);
    proof {
        assert forall|e: u64, id2: H256| #[trigger] base_rlp(e, h256_bytes_spec(id2)) == b@
            implies (got matches Some((e2, idb)) && e2 == e && idb@ == h256_bytes_spec(id2)) by {
            let x: BaseFields = (e, h256_bytes_spec(id2));
            assert(base_rlp(x.0, x.1) == b@);
        }
    }
    match got {
        None => None,
        Some((era, idb)) => match h256_from_bytes(&idb) {
            Some(id) => {
                proof {
                    assert forall|e: u64, id2: H256| #[trigger] base_rlp(e, h256_bytes_spec(id2)) == b@
                        implies (era, id) == (e, id2) by {
                        lemma_halves_injective(id.hi, id.lo, id2.hi, id2.lo);
                    }
                }
                Some((era, id))
            },
            None => None,
        },
    }
}

/// The store key under which the candidate ids of an era are kept.
pub fn journal_key(era: u64) -> (r: Vec<u8>)
    ensures
        r@ == era_key_rlp(era),
        21 <= r@.len() <= 29,
{
    let padding: Vec<u8> = vec![0u8, 0, 0, 0, 0, 0, 0, 0, 0, 0];
    assert(padding@ =~= key_padding());
    rlp_era_key(&key_tag_bytes(), era, &padding)
}

/// The bytes of the tag `"journal"`.
fn key_tag_bytes() -> (r: Vec<u8>)
    ensures
        r@ == key_tag(),
{
    let r: Vec<u8> = vec![106u8, 111, 117, 114, 110, 97, 108];
    assert(r@ =~= key_tag());
    r
}

/// The store key under which the journal entry of a block is kept.
pub fn id_key(id: &H256) -> (r: Vec<u8>)
    ensures
        r@ == id_key_rlp(h256_bytes_spec(*id)),
        r@.len() == 53,
{
    let padding: Vec<u8> = vec![0u8, 0, 0, 0, 0, 0, 0, 0, 0, 0];
    assert(padding@ =~= key_padding());
    rlp_id_key(&key_tag_bytes(), &h256_bytes(id), &padding)
}

} // verus!
