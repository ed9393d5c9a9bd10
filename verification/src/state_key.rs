//! The key under which a replica persists the state of its region: a fixed
//! prefix, the region's id as eight bytes with the most significant first,
//! and a fixed suffix. Keys of different regions differ.

use vstd::prelude::*;

verus! {

/// First byte of every key that is local to a store.
pub const LOCAL_PREFIX: u8 = 0x01;

/// Second byte of every key that holds data about a region.
pub const REGION_META_PREFIX: u8 = 0x03;

/// Last byte of the key that holds a region's state.
pub const REGION_STATE_SUFFIX: u8 = 0x01;

/// Length of a region state key.
pub const REGION_STATE_KEY_LEN: usize = 11;

/// Byte `k` of `id`, counted from the most significant.
pub open spec fn id_byte(id: u64, k: u64) -> u8 {
    ((id >> (56 - 8 * k) as u64) & 0xff) as u8
}

/// The id whose bytes, most significant first, are `b`.
pub open spec fn id_of_bytes(b: Seq<u8>) -> u64 {
    (b[0] as u64) << 56 | (b[1] as u64) << 48 | (b[2] as u64) << 40 | (b[3] as u64) << 32 | (
    b[4] as u64) << 24 | (b[5] as u64) << 16 | (b[6] as u64) << 8 | (b[7] as u64)
}

/// The key that holds the state of region `id`.
pub open spec fn state_key_of(id: u64) -> Seq<u8> {
    seq![
        LOCAL_PREFIX,
        REGION_META_PREFIX,
        id_byte(id, 0),
        id_byte(id, 1),
        id_byte(id, 2),
        id_byte(id, 3),
        id_byte(id, 4),
        id_byte(id, 5),
        id_byte(id, 6),
        id_byte(id, 7),
        REGION_STATE_SUFFIX,
    ]
}

/// Whether `key` has the shape of a region state key.
pub open spec fn is_state_key(key: Seq<u8>) -> bool {
    &&& key.len() == REGION_STATE_KEY_LEN
    &&& key[0] == LOCAL_PREFIX
    &&& key[1] == REGION_META_PREFIX
    &&& key[10] == REGION_STATE_SUFFIX
}

/// The eight bytes of an id put together again give the id.
pub proof fn lemma_bytes_of_id(id: u64)
    ensures
        id_of_bytes(state_key_of(id).subrange(2, 10)) == id,
{
    let b = state_key_of(id).subrange(2, 10);
    assert(b[0] == id_byte(id, 0) && b[1] == id_byte(id, 1) && b[2] == id_byte(id, 2) && b[3]
        == id_byte(id, 3) && b[4] == id_byte(id, 4) && b[5] == id_byte(id, 5) && b[6] == id_byte(
        id,
        6,
    ) && b[7] == id_byte(id, 7));
    assert((((id >> 56) & 0xff) as u8 as u64) << 56 | (((id >> 48) & 0xff) as u8 as u64) << 48 | (((
    id >> 40) & 0xff) as u8 as u64) << 40 | (((id >> 32) & 0xff) as u8 as u64) << 32 | (((id >> 24)
        & 0xff) as u8 as u64) << 24 | (((id >> 16) & 0xff) as u8 as u64) << 16 | (((id >> 8) & 0xff) as u8 as u64)
        << 8 | (((id >> 0) & 0xff) as u8 as u64) == id) by (bit_vector);
}

/// An id put together from eight bytes has those bytes.
pub proof fn lemma_id_of_bytes(b: Seq<u8>)
    requires
        b.len() == 8,
    ensures
        state_key_of(id_of_bytes(b)).subrange(2, 10) == b,
{
    let b0 = b[0];
    let b1 = b[1];
    let b2 = b[2];
    let b3 = b[3];
    let b4 = b[4];
    let b5 = b[5];
    let b6 = b[6];
    let b7 = b[7];
    let id = id_of_bytes(b);
    assert(id == (b0 as u64) << 56 | (b1 as u64) << 48 | (b2 as u64) << 40 | (b3 as u64) << 32 | (
    b4 as u64) << 24 | (b5 as u64) << 16 | (b6 as u64) << 8 | (b7 as u64));
    assert(((id >> 56) & 0xff) as u8 == b0 && ((id >> 48) & 0xff) as u8 == b1 && ((id >> 40) & 0xff) as u8
        == b2 && ((id >> 32) & 0xff) as u8 == b3 && ((id >> 24) & 0xff) as u8 == b4 && ((id >> 16)
        & 0xff) as u8 == b5 && ((id >> 8) & 0xff) as u8 == b6 && ((id >> 0) & 0xff) as u8 == b7)
        by (bit_vector)
        requires
            id == (b0 as u64) << 56 | (b1 as u64) << 48 | (b2 as u64) << 40 | (b3 as u64) << 32 | (
            b4 as u64) << 24 | (b5 as u64) << 16 | (b6 as u64) << 8 | (b7 as u64),
    ;
    assert(state_key_of(id).subrange(2, 10) =~= b);
}

/// Byte `k` of `id`, counted from the most significant.
fn byte_of(id: u64, k: u64) -> (r: u8)
    requires
        k < 8,
    ensures
        r == id_byte(id, k),
{
    let shift: u64 = 56 - 8 * k;
    let part: u64 = (id >> shift) & 0xff;
    assert(part < 256) by (bit_vector)
        requires
            part == (id >> shift) & 0xff,
    ;
    part as u8
}

/// The key under which the state of region `region_id` is persisted.
pub fn region_state_key(region_id: u64) -> (r: Vec<u8>)
    ensures
        r@ == state_key_of(region_id),
{
    let mut key: Vec<u8> = Vec::with_capacity(REGION_STATE_KEY_LEN);
    key.push(LOCAL_PREFIX);
    key.push(REGION_META_PREFIX);
    key.push(byte_of(region_id, 0));
    key.push(byte_of(region_id, 1));
    key.push(byte_of(region_id, 2));
    key.push(byte_of(region_id, 3));
    key.push(byte_of(region_id, 4));
    key.push(byte_of(region_id, 5));
    key.push(byte_of(region_id, 6));
    key.push(byte_of(region_id, 7));
    key.push(REGION_STATE_SUFFIX);
    assert(key@ =~= state_key_of(region_id));
    key
}

/// The region whose state is persisted under `key`, if `key` is a region
/// state key.
pub fn region_id_of_state_key(key: &[u8]) -> (r: Option<u64>)
    ensures
        r is Some <==> is_state_key(key@),
        r matches Some(id) ==> state_key_of(id) == key@,
{
    if key.len() != REGION_STATE_KEY_LEN || key[0] != LOCAL_PREFIX || key[1] != REGION_META_PREFIX
        || key[10] != REGION_STATE_SUFFIX {
        return None;
    }
    let ghost b = key@.subrange(2, 10);
    let id: u64 = (key[2] as u64) << 56 | (key[3] as u64) << 48 | (key[4] as u64) << 40 | (
    key[5] as u64) << 32 | (key[6] as u64) << 24 | (key[7] as u64) << 16 | (key[8] as u64) << 8 | (
    key[9] as u64);
    proof {
        assert(id == id_of_bytes(b));
        lemma_id_of_bytes(b);
        assert(state_key_of(id) =~= key@) by {
            assert forall|j: int| 0 <= j < 11 implies state_key_of(id)[j] == key@[j] by {
                if 2 <= j < 10 {
                    assert(state_key_of(id).subrange(2, 10)[j - 2] == b[j - 2]);
                }
            }
        }
    }
    Some(id)
}

} // verus!
