//! A hash index over the mount table's entries.
use vstd::prelude::*;
use crate::mount::MountEntry;

verus! {

broadcast use vstd::std_specs::btree::group_btree_axioms, vstd::laws_cmp::group_laws_cmp;

/// The hash that `rehash_mount_cache` files an entry under.
pub open spec fn mount_hash(prefix: Seq<u8>, target_len: nat) -> u64 {
    vstd::wrapping::u64_specs::wrapping_mul(fnv_hash(prefix) ^ (target_len as u64), 0x517cc1b727220a95u64)
}

/// FNV-1a over the bytes of `b`.
pub open spec fn fnv_hash(b: Seq<u8>) -> u64
    decreases b.len(),
{
    if b.len() == 0 {
        0xcbf29ce484222325u64
    } else {
        vstd::wrapping::u64_specs::wrapping_mul(fnv_hash(b.drop_last()) ^ (b.last() as u64), 0x100000001b3u64)
    }
}

pub open spec fn mount_hash_at(es: Seq<(Seq<u8>, Seq<u8>)>, i: int) -> u64 {
    mount_hash(es[i].0, es[i].1.len())
}

fn fnv_bytes(b: &[u8]) -> (r: u64)
    ensures
        r == fnv_hash(b@),
{
    let mut h: u64 = 0xcbf29ce484222325u64;
    let mut i: usize = 0;
    while i < b.len()
        invariant
            i <= b@.len(),
            h == fnv_hash(b@.take(i as int)),
        decreases b@.len() - i,
    {
        proof {
            assert(b@.take(i + 1).drop_last() =~= b@.take(i as int));
        }
        h = h ^ (b[i] as u64);
        h = h.wrapping_mul(0x100000001b3u64);
        i = i + 1;
    }
    assert(b@.take(b@.len() as int) =~= b@);
    h
}

/// Files each entry's index under the hash of its prefix and target
/// length; an entry with the same hash as an earlier one replaces it.
pub fn rehash_mount_cache(entries: &[MountEntry]) -> (r: std::collections::BTreeMap<u64, usize>)
    ensures
        forall|h: u64|
            r@.contains_key(h) <==> exists|i: int| 0 <= i < entries@.len() && #[trigger] mount_hash(entries@[i].prefix@, entries@[i].target@.len()) == h,
        forall|i: int|
            0 <= i < entries@.len() ==> r@[#[trigger] mount_hash(entries@[i].prefix@, entries@[i].target@.len())] >= i,
        forall|h: u64|
            #![trigger r@[h]]
            r@.contains_key(h) ==> {
                let i = r@[h] as int;
                &&& 0 <= i < entries@.len()
                &&& mount_hash(entries@[i].prefix@, entries@[i].target@.len()) == h
            },
{
    let mut map: std::collections::BTreeMap<u64, usize> = std::collections::BTreeMap::new();
    let mut idx: usize = 0;
    while idx < entries.len()
        invariant
            idx <= entries@.len(),
            forall|h: u64|
                map@.contains_key(h) <==> exists|i: int| 0 <= i < idx && #[trigger] mount_hash(entries@[i].prefix@, entries@[i].target@.len()) == h,
            forall|i: int|
                0 <= i < idx ==> map@[#[trigger] mount_hash(entries@[i].prefix@, entries@[i].target@.len())] >= i,
            forall|h: u64|
                #![trigger map@[h]]
                map@.contains_key(h) ==> {
                    let i = map@[h] as int;
                    &&& 0 <= i < idx
                    &&& mount_hash(entries@[i].prefix@, entries@[i].target@.len()) == h
                },
        decreases entries@.len() - idx,
    {
        let e = &entries[idx];
        let mut h = fnv_bytes(e.prefix.as_slice());
        h = h ^ (e.target.len() as u64);
        h = h.wrapping_mul(0x517cc1b727220a95u64);
        assert(h == mount_hash(entries@[idx as int].prefix@, entries@[idx as int].target@.len()));
        map.insert(h, idx);
        idx = idx + 1;
    }
    map
}

} // verus!
