use vstd::prelude::*;
use vstd::wrapping::u64_specs::wrapping_mul;

use crate::frame::{Frame, FrameV};

verus! {

pub const FNV_OFFSET: u64 = 0xcbf29ce484222325;

pub const FNV_PRIME: u64 = 0x100000001b3;

/// 64-bit FNV-1a of `key`: the stable hash that places keys on shards.
pub open spec fn fnv1a(key: Seq<u8>) -> u64
    decreases key.len(),
{
    if key.len() == 0 {
        FNV_OFFSET
    } else {
        wrapping_mul(fnv1a(key.drop_last()) ^ (key.last() as u64), FNV_PRIME)
    }
}

/// The shard that owns `key` in a topology of `n` shards.
pub open spec fn shard_of(key: Seq<u8>, n: nat) -> nat
    recommends
        n > 0,
{
    (fnv1a(key) as nat) % n
}

pub fn hash_key(key: &[u8]) -> (r: u64)
    ensures
        r == fnv1a(key@),
{
    let mut h: u64 = FNV_OFFSET;
    let mut i: usize = 0;
    while i < key.len()
        invariant
            i <= key@.len(),
            h == fnv1a(key@.subrange(0, i as int)),
        decreases key@.len() - i,
    {
        assert(key@.subrange(0, i + 1).drop_last() =~= key@.subrange(0, i as int));
        h = (h ^ (key[i] as u64)).wrapping_mul(FNV_PRIME);
        i = i + 1;
    }
    assert(key@.subrange(0, i as int) =~= key@);
    h
}

/// Picks the shard for `key` among `n` shards.
pub fn shard_for(key: &[u8], n: usize) -> (r: usize)
    requires
        n > 0,
    ensures
        r == shard_of(key@, n as nat),
        r < n,
{
    (hash_key(key) % (n as u64)) as usize
}

/// The key a command names: the second element of an array command, when it is
/// a bulk string.
pub open spec fn key_of(cmd: FrameV) -> Option<Seq<u8>> {
    match cmd {
        FrameV::Array(items) => if items.len() >= 2 {
            match items[1] {
                FrameV::Bulk(k) => Some(k),
                _ => None,
            }
        } else {
            None
        },
        _ => None,
    }
}

/// Where a command goes: its key's shard, and shard 0 for a command without a key.
pub open spec fn route_spec(cmd: FrameV, n: nat) -> nat {
    match key_of(cmd) {
        Some(k) => shard_of(k, n),
        None => 0,
    }
}

/// Chooses the shard for a command.
pub fn route(cmd: &Frame, n: usize) -> (r: usize)
    requires
        n > 0,
    ensures
        r == route_spec(cmd@, n as nat),
        r < n,
{
    match cmd {
        Frame::Array(items) => {
            if items.len() >= 2 {
                assert(cmd@->Array_0[1] == items@[1]@);
                match &items[1] {
                    Frame::Bulk(k) => shard_for(k.as_slice(), n),
                    _ => 0,
                }
            } else {
                0
            }
        },
        _ => 0,
    }
}

/// Routing is a function of the key and the number of shards alone: the same
/// key, asked twice of the same topology, lands on the same shard, which is
/// one of the topology's.
pub proof fn lemma_route_deterministic(k1: Seq<u8>, k2: Seq<u8>, n: nat)
    requires
        n > 0,
        k1 == k2,
    ensures
        shard_of(k1, n) == shard_of(k2, n),
        shard_of(k1, n) < n,
{
}

} // verus!
