//! The set of tile layouts a search has already met.
use std::collections::HashMap;
use vstd::prelude::*;

verus! {

broadcast use vstd::std_specs::hash::group_hash_axioms;

/// The bucket modulus: the largest prime below 2^32.
pub const KEY_MODULUS: u64 = 4294967291;

/// The bucket a layout falls in: a polynomial hash of its tiles.
pub open spec fn cells_key(s: Seq<u8>) -> u64
    decreases s.len(),
{
    if s.len() == 0 {
        0
    } else {
        ((cells_key(s.drop_last()) as int * 257 + s.last() as int) % (KEY_MODULUS as int)) as u64
    }
}

/// Whether two layouts hold the same tiles in the same order.
pub fn same_cells(a: &Vec<u8>, b: &Vec<u8>) -> (r: bool)
    ensures
        r == (a@ == b@),
{
    if a.len() != b.len() {
        return false;
    }
    let mut i: usize = 0;
    while i < a.len()
        invariant
            a@.len() == b@.len(),
            i <= a@.len(),
            forall|k: int| 0 <= k < i ==> a@[k] == b@[k],
        decreases a.len() - i,
    {
        if a[i] != b[i] {
            return false;
        }
        i = i + 1;
    }
    assert(a@ =~= b@);
    true
}

fn key_of(cells: &Vec<u8>) -> (k: u64)
    ensures
        k == cells_key(cells@),
{
    let mut h: u64 = 0;
    let mut i: usize = 0;
    while i < cells.len()
        invariant
            i <= cells@.len(),
            h == cells_key(cells@.subrange(0, i as int)),
            h < KEY_MODULUS,
        decreases cells.len() - i,
    {
        proof {
            let s = cells@.subrange(0, i as int + 1);
            assert(s.drop_last() =~= cells@.subrange(0, i as int));
            assert(s.last() == cells@[i as int]);
        }
        h = (h * 257 + cells[i] as u64) % KEY_MODULUS;
        i = i + 1;
    }
    proof {
        assert(cells@.subrange(0, cells@.len() as int) =~= cells@);
        if cells@.len() == 0 {
            assert(cells@.subrange(0, 0) =~= Seq::<u8>::empty());
        }
    }
    h
}

/// Tile layouts, bucketed by `cells_key`.
pub struct ClosedSet {
    buckets: HashMap<u64, Vec<Vec<u8>>>,
}

impl View for ClosedSet {
    type V = Set<Seq<u8>>;

    closed spec fn view(&self) -> Set<Seq<u8>> {
        Set::new(
            |s: Seq<u8>|
                self.buckets@.contains_key(cells_key(s)) && exists|i: int|
                    0 <= i < self.buckets@[cells_key(s)]@.len() && #[trigger] self.buckets@[cells_key(
                        s,
                    )]@[i]@ == s,
        )
    }
}

impl ClosedSet {
    pub fn new() -> (r: ClosedSet)
        ensures
            r@ == Set::<Seq<u8>>::empty(),
    {
        let r = ClosedSet { buckets: HashMap::new() };
        assert(r@ =~= Set::<Seq<u8>>::empty());
        r
    }

    pub fn contains(&self, cells: &Vec<u8>) -> (r: bool)
        ensures
            r == self@.contains(cells@),
    {
        let k = key_of(cells);
        match self.buckets.get(&k) {
            None => false,
            Some(bucket) => {
                let mut i: usize = 0;
                while i < bucket.len()
                    invariant
                        self.buckets@.contains_key(k),
                        self.buckets@[k] == *bucket,
                        k == cells_key(cells@),
                        i <= bucket@.len(),
                        forall|j: int| 0 <= j < i ==> bucket@[j]@ != cells@,
                    decreases bucket.len() - i,
                {
                    if same_cells(&bucket[i], cells) {
                        return true;
                    }
                    i = i + 1;
                }
                false
            },
        }
    }

    pub fn insert(&mut self, cells: Vec<u8>)
        ensures
            final(self)@ == old(self)@.insert(cells@),
    {
        let k = key_of(&cells);
        let ghost s = cells@;
        let ghost m0 = self.buckets@;
        let mut bucket = match self.buckets.remove(&k) {
            Some(b) => b,
            None => Vec::new(),
        };
        let ghost old_bucket = bucket@;
        assert(self.buckets@ == m0.remove(k));
        assert(m0.contains_key(k) ==> old_bucket == m0[k]@);
        assert(!m0.contains_key(k) ==> old_bucket.len() == 0);
        bucket.push(cells);
        let ghost nb = bucket@;
        self.buckets.insert(k, bucket);
        proof {
            let m1 = self.buckets@;
            assert(m1 == m0.remove(k).insert(k, m1[k]));
            assert(m1[k]@ == nb);
            assert(nb.len() == old_bucket.len() + 1);
            assert(nb[old_bucket.len() as int]@ == s);
            let ov = old(self)@;
            let nv = self@;
            assert forall|t: Seq<u8>| nv.contains(t) <==> ov.contains(t) || t == s by {
                let kt = cells_key(t);
                if kt == k {
                    if t == s {
                        let last = nb.len() - 1;
                        assert(nb[last]@ == s);
                        assert(m1[kt]@[last]@ == t);
                    }
                    if ov.contains(t) {
                        let j = choose|j: int|
                            0 <= j < m0[kt]@.len() && #[trigger] m0[kt]@[j]@ == t;
                        assert(nb[j] == old_bucket[j]);
                        assert(m1[kt]@[j]@ == t);
                    }
                    if nv.contains(t) && t != s {
                        let j = choose|j: int| 0 <= j < m1[kt]@.len() && #[trigger] m1[kt]@[j]@ == t;
                        assert(j < old_bucket.len());
                        assert(m0.contains_key(k));
                        assert(m0[kt]@[j]@ == t);
                    }
                } else {
                    assert(m1.contains_key(kt) == m0.contains_key(kt));
                    if m0.contains_key(kt) {
                        assert(m1[kt] == m0[kt]);
                    }
                }
            }
            assert(nv =~= ov.insert(s));
        }
    }
}

} // verus!
