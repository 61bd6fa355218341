use std::collections::HashMap;
use vstd::prelude::*;
use vstd::std_specs::hash::spec_hash_map_iter;
use vstd::std_specs::iter::IteratorSpec;

verus! {

broadcast use vstd::std_specs::hash::group_hash_axioms;

/// The 64-bit key under which a pair of 32-bit token ids is stored:
/// the left id in the high half, the right id in the low half.
pub open spec fn pair_key(pair: (u32, u32)) -> u64 {
    (pair.0 as int * 0x1_0000_0000 + pair.1 as int) as u64
}

/// The pair of token ids that a 64-bit key stands for.
pub open spec fn key_pair(key: u64) -> (u32, u32) {
    ((key as int / 0x1_0000_0000) as u32, (key as int % 0x1_0000_0000) as u32)
}

/// Packing a pair into its key and unpacking it again gives back the pair,
/// and every key is the key of the pair it unpacks to.
pub proof fn lemma_pair_key_roundtrip(pair: (u32, u32), key: u64)
    ensures
        key_pair(pair_key(pair)) == pair,
        pair_key(key_pair(key)) == key,
        pair.0 as int * 0x1_0000_0000 + pair.1 as int <= u64::MAX,
{
    assert(pair.0 as int * 0x1_0000_0000 + pair.1 as int <= u64::MAX) by (nonlinear_arith)
        requires
            pair.0 <= u32::MAX,
            pair.1 <= u32::MAX,
    ;
    let k = pair.0 as int * 0x1_0000_0000 + pair.1 as int;
    assert(k / 0x1_0000_0000 == pair.0 as int && k % 0x1_0000_0000 == pair.1 as int)
        by (nonlinear_arith)
        requires
            k == pair.0 as int * 0x1_0000_0000 + pair.1 as int,
            0 <= pair.0,
            0 <= pair.1 < 0x1_0000_0000,
    ;
    let q = key as int / 0x1_0000_0000;
    let r = key as int % 0x1_0000_0000;
    assert(q * 0x1_0000_0000 + r == key as int && 0 <= q < 0x1_0000_0000 && 0 <= r < 0x1_0000_0000)
        by (nonlinear_arith)
        requires
            q == key as int / 0x1_0000_0000,
            r == key as int % 0x1_0000_0000,
            0 <= key <= u64::MAX,
    ;
}

/// Distinct pairs have distinct keys.
pub proof fn lemma_pair_key_injective(a: (u32, u32), b: (u32, u32))
    ensures
        pair_key(a) == pair_key(b) <==> a == b,
{
    lemma_pair_key_roundtrip(a, 0);
    lemma_pair_key_roundtrip(b, 0);
}

/// A table from pairs of token ids to token ids.
#[derive(Debug)]
pub struct PairTable {
    table: HashMap<u64, u32>,
}

impl View for PairTable {
    type V = Map<(u32, u32), u32>;

    closed spec fn view(&self) -> Map<(u32, u32), u32> {
        Map::new(
            |p: (u32, u32)| self.table@.contains_key(pair_key(p)),
            |p: (u32, u32)| self.table@[pair_key(p)],
        )
    }
}

/// Packs a pair of token ids into its 64-bit key.
fn pack(pair: (u32, u32)) -> (key: u64)
    ensures
        key == pair_key(pair),
{
    proof {
        lemma_pair_key_roundtrip(pair, 0);
    }
    (pair.0 as u64) * 0x1_0000_0000u64 + (pair.1 as u64)
}

/// Unpacks a 64-bit key into the pair of token ids it stands for.
fn unpack(key: u64) -> (pair: (u32, u32))
    ensures
        pair == key_pair(key),
        pair_key(pair) == key,
{
    proof {
        lemma_pair_key_roundtrip((0, 0), key);
    }
    ((key / 0x1_0000_0000u64) as u32, (key % 0x1_0000_0000u64) as u32)
}

impl PairTable {
    /// An empty table.
    pub fn new() -> (t: Self)
        ensures
            t@ == Map::<(u32, u32), u32>::empty(),
    {
        let t = PairTable { table: HashMap::new() };
        assert(t@ =~= Map::<(u32, u32), u32>::empty());
        t
    }

    /// The id stored for `pair`, if any.
    pub fn get(&self, pair: &(u32, u32)) -> (r: Option<&u32>)
        ensures
            match r {
                Some(v) => self@.contains_key(*pair) && *v == self@[*pair],
                None => !self@.contains_key(*pair),
            },
    {
        let key = pack(*pair);
        self.table.get(&key)
    }

    /// Stores `value` for `pair`, replacing what was stored before.
    pub fn insert(&mut self, pair: (u32, u32), value: u32) -> (previous: Option<u32>)
        ensures
            final(self)@ == old(self)@.insert(pair, value),
            match previous {
                Some(v) => old(self)@.contains_key(pair) && v == old(self)@[pair],
                None => !old(self)@.contains_key(pair),
            },
    {
        let key = pack(pair);
        let r = self.table.insert(key, value);
        proof {
            assert forall|p: (u32, u32)| #![auto] p != pair implies pair_key(p) != key by {
                lemma_pair_key_injective(p, pair);
            }
        }
        assert(self@ =~= old(self)@.insert(pair, value));
        r
    }

    /// Every stored (pair, id) entry, each pair once, in no particular order.
    pub fn entries(&self) -> (r: Vec<((u32, u32), u32)>)
        ensures
            forall|i: int| #![trigger r[i]] 0 <= i < r.len() ==> self@.contains_key(r[i].0) && self@[r[i].0] == r[i].1,
            forall|p: (u32, u32)| #[trigger] self@.contains_key(p) ==> exists|i: int| 0 <= i < r.len() && r[i].0 == p,
            forall|i: int, j: int| #![trigger r[i], r[j]] 0 <= i < j < r.len() ==> r[i].0 != r[j].0,
    {
        let mut r: Vec<((u32, u32), u32)> = Vec::new();
        let ghost all = spec_hash_map_iter(&self.table).remaining();
        let entries = self.table.iter();
        assert(all.no_duplicates());
        for kv in it: entries
            invariant
                it.seq() == all,
                r.len() == it.index(),
                forall|i: int| #![trigger r@[i]] 0 <= i < r.len() ==> r@[i].0 == key_pair(*all[i].0) && r@[i].1 == *all[i].1,
        {
            let (k, v) = kv;
            r.push((unpack(*k), *v));
        }
        proof {
            let n = r.len() as int;
            assert(all.len() == self.table@.dom().len());
            assert forall|p: (u32, u32)| #[trigger] self@.contains_key(p) implies exists|i: int| 0 <= i < r.len() && r[i].0 == p by {
                let key = pair_key(p);
                assert(self.table@.contains_key(key));
                assert(all.contains((&key, &self.table@[key])));
                let i = choose|i: int| 0 <= i < all.len() && all[i] == (&key, &self.table@[key]);
                lemma_pair_key_roundtrip(p, key);
                assert(r[i].0 == p);
            }
            assert forall|i: int, j: int| #![trigger r[i], r[j]] 0 <= i < j < r.len() implies r[i].0 != r[j].0 by {
                if r[i].0 == r[j].0 {
                    lemma_pair_key_roundtrip(r[i].0, *all[i].0);
                    lemma_pair_key_roundtrip(r[j].0, *all[j].0);
                    assert(*all[i].0 == *all[j].0);
                    assert(self.table@[*all[i].0] == *all[i].1);
                    assert(self.table@[*all[j].0] == *all[j].1);
                    assert(all[i] == all[j]);
                }
            }
        }
        r
    }
}

} // verus!
