use std::collections::HashMap;
use vstd::prelude::*;
use vstd::std_specs::hash::*;

verus! {

/// The bucket of a point: one integer per coordinate.  Two points count as the
/// same state exactly when both coordinates fall into the same bucket.
#[derive(Debug, Copy, Clone, PartialEq, Eq, Structural)]
pub struct PointKey {
    pub x: i64,
    pub y: i64,
}

impl PointKey {
    pub fn new(x: i64, y: i64) -> (k: Self)
        ensures
            k.x == x,
            k.y == y,
    {
        PointKey { x, y }
    }
}

/// The bucket of a circle: that of its centre, and that of its radius.
#[derive(Debug, Copy, Clone, PartialEq, Eq, Structural)]
pub struct CircleKey {
    pub centre: PointKey,
    pub radius: i64,
}

impl CircleKey {
    pub fn new(centre: PointKey, radius: i64) -> (k: Self)
        ensures
            k.centre == centre,
            k.radius == radius,
    {
        CircleKey { centre, radius }
    }
}

/// The key of a point as a sequence of bucket numbers.
pub open spec fn point_parts(k: PointKey) -> Seq<i64> {
    seq![k.x, k.y]
}

/// Whether two keys hold the same bucket numbers in the same order.
pub fn same_parts(a: &Vec<i64>, b: &Vec<i64>) -> (same: bool)
    ensures
        same == (a@ == b@),
{
    if a.len() != b.len() {
        return false;
    }
    let mut i: usize = 0;
    while i < a.len()
        invariant
            a.len() == b.len(),
            i <= a.len(),
            forall|j: int| 0 <= j < i ==> a@[j] == b@[j],
        decreases a.len() - i,
    {
        if a[i] != b[i] {
            return false;
        }
        i += 1;
    }
    assert(a@ =~= b@);
    true
}

/// What a set of keys holds after `key` was offered to it: the keys in the
/// order in which they first came.
pub open spec fn offered(keys: Seq<Seq<i64>>, key: Seq<i64>) -> Seq<Seq<i64>> {
    if keys.contains(key) {
        keys
    } else {
        keys.push(key)
    }
}

/// The number under which a key is filed: keys with different numbers are
/// different keys, so a key is compared only with those filed under its own.
pub open spec fn digest(parts: Seq<i64>) -> u64
    decreases parts.len(),
{
    if parts.len() == 0 {
        0xcbf2_9ce4_8422_2325
    } else {
        digest(parts.drop_last()).wrapping_add_signed(parts.last()).wrapping_mul(0x0100_0000_01b3)
    }
}

/// Computes the number under which `parts` is filed.
pub fn digest_of(parts: &Vec<i64>) -> (d: u64)
    ensures
        d == digest(parts@),
{
    let mut d: u64 = 0xcbf2_9ce4_8422_2325;
    let mut i: usize = 0;
    while i < parts.len()
        invariant
            i <= parts.len(),
            d == digest(parts@.take(i as int)),
        decreases parts.len() - i,
    {
        assert(parts@.take(i + 1).drop_last() =~= parts@.take(i as int));
        d = d.wrapping_add_signed(parts[i]).wrapping_mul(0x0100_0000_01b3);
        i += 1;
    }
    assert(parts@.take(parts.len() as int) =~= parts@);
    d
}

/// A set of bucketed keys that remembers the order in which they first came.
///
/// Coordinates that fall into the same buckets give the same key, and the set
/// keeps one entry for them however often they are offered.
pub struct BucketSet {
    keys: Vec<Vec<i64>>,
    index: HashMap<u64, Vec<usize>>,
}

impl View for BucketSet {
    type V = Seq<Seq<i64>>;

    closed spec fn view(&self) -> Seq<Seq<i64>> {
        Seq::new(self.keys@.len(), |i: int| self.keys@[i]@)
    }
}

impl BucketSet {
    /// Every position filed in the index holds a key of that number, and
    /// every key is filed under its number.
    spec fn filed(&self) -> bool {
        &&& forall|d: u64, j: int|
            self.index@.contains_key(d) && 0 <= j < self.index@[d]@.len() ==> {
                &&& (#[trigger] self.index@[d]@[j]) < self.keys@.len()
                &&& digest(self@[self.index@[d]@[j] as int]) == d
            }
        &&& forall|i: int|
            0 <= i < self.keys@.len() ==> {
                &&& self.index@.contains_key(digest(#[trigger] self@[i]))
                &&& self.index@[digest(self@[i])]@.contains(i as usize)
            }
    }

    /// No key is held twice, and the index of the set is in order.
    pub closed spec fn wf(&self) -> bool {
        &&& self@.no_duplicates()
        &&& self.filed()
    }

    /// A well-formed set holds no key twice.
    pub proof fn lemma_distinct(&self)
        requires
            self.wf(),
        ensures
            self@.no_duplicates(),
    {
    }

    pub fn new() -> (s: Self)
        ensures
            s@ == Seq::<Seq<i64>>::empty(),
            s.wf(),
    {
        let s = BucketSet { keys: Vec::new(), index: HashMap::new() };
        assert(s@ =~= Seq::<Seq<i64>>::empty());
        s
    }

    pub fn len(&self) -> (n: usize)
        ensures
            n == self@.len(),
    {
        self.keys.len()
    }

    /// Whether `key`, which is filed under `d`, was offered before.
    fn holds(&self, key: &Vec<i64>, d: u64) -> (found: bool)
        requires
            self.wf(),
            d == digest(key@),
        ensures
            found == self@.contains(key@),
    {
        broadcast use group_hash_axioms;

        match self.index.get(&d) {
            None => false,
            Some(filed) => {
                let mut j: usize = 0;
                while j < filed.len()
                    invariant
                        self.wf(),
                        j <= filed.len(),
                        d == digest(key@),
                        self.index@.contains_key(d),
                        self.index@[d] == *filed,
                        forall|i: int| 0 <= i < j ==> self@[filed@[i] as int] != key@,
                    decreases filed.len() - j,
                {
                    if same_parts(&self.keys[filed[j]], key) {
                        assert(self@[filed@[j as int] as int] == key@);
                        return true;
                    }
                    j += 1;
                }
                assert(!self@.contains(key@)) by {
                    if self@.contains(key@) {
                        let i = choose|i: int| 0 <= i < self@.len() && self@[i] == key@;
                        assert(self.keys@.len() == self.keys.len());
                        assert(self.index@[digest(self@[i])]@.contains(i as usize));
                        let at = choose|at: int| 0 <= at < filed@.len() && filed@[at] == i as usize;
                        assert(self@[filed@[at] as int] == key@);
                    }
                }
                false
            },
        }
    }

    /// Whether `key` was offered before.
    pub fn contains(&self, key: &Vec<i64>) -> (found: bool)
        requires
            self.wf(),
        ensures
            found == self@.contains(key@),
    {
        self.holds(key, digest_of(key))
    }

    /// Offers `key`; says whether it is new, and keeps it if so.
    pub fn insert(&mut self, key: Vec<i64>) -> (fresh: bool)
        requires
            old(self).wf(),
        ensures
            fresh == !old(self)@.contains(key@),
            final(self)@ == offered(old(self)@, key@),
            final(self).wf(),
    {
        broadcast use group_hash_axioms;

        let d = digest_of(&key);
        if self.holds(&key, d) {
            return false;
        }
        let ghost before = *self;
        let ghost added = key@;
        let at = self.keys.len();
        let mut filed = match self.index.remove(&d) {
            Some(filed) => filed,
            None => Vec::new(),
        };
        let ghost earlier = filed@;
        filed.push(at);
        self.index.insert(d, filed);
        self.keys.push(key);
        proof {
            assert(self@ =~= before@.push(added));
            assert forall|e: u64, j: int|
                self.index@.contains_key(e) && 0 <= j < self.index@[e]@.len() implies {
                &&& (#[trigger] self.index@[e]@[j]) < self.keys@.len()
                &&& digest(self@[self.index@[e]@[j] as int]) == e
            } by {
                if e != d {
                    assert(before.index@.contains_key(e));
                    assert(self.index@[e]@[j] == before.index@[e]@[j]);
                } else if j < earlier.len() {
                    assert(before.index@.contains_key(d));
                    assert(self.index@[e]@[j] == before.index@[d]@[j]);
                }
            }
            assert forall|i: int| 0 <= i < self.keys@.len() implies {
                &&& self.index@.contains_key(digest(#[trigger] self@[i]))
                &&& self.index@[digest(self@[i])]@.contains(i as usize)
            } by {
                if i < at {
                    assert(self@[i] == before@[i]);
                    let e = digest(before@[i]);
                    let was = choose|was: int|
                        0 <= was < before.index@[e]@.len() && before.index@[e]@[was] == i as usize;
                    assert(self.index@[e]@[was] == i as usize);
                } else {
                    assert(self.index@[d]@[earlier.len() as int] == at);
                }
            }
        }
        true
    }
}

/// Offering a key keeps the keys distinct, and a key that was offered is
/// held: offering the same coordinates again changes nothing.
pub proof fn lemma_offered_once(keys: Seq<Seq<i64>>, key: Seq<i64>)
    requires
        keys.no_duplicates(),
    ensures
        offered(keys, key).no_duplicates(),
        offered(keys, key).contains(key),
        offered(offered(keys, key), key) == offered(keys, key),
        keys.is_prefix_of(offered(keys, key)),
{
    if !keys.contains(key) {
        assert(offered(keys, key)[keys.len() as int] == key);
    }
}

} // verus!
