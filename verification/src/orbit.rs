use vstd::prelude::*;
use crate::bucket::{point_parts, BucketSet, PointKey};
use crate::geom::{Circle, RotCircle};
use crate::orbit_laws::lemma_run_grows;

verus! {

/// One point of an orbit, with the index of the record it was reached from.
/// The seed is its own parent.
#[derive(Debug, Clone, Copy)]
pub struct OrbitRecord<P> {
    pub point: P,
    pub parent: usize,
}

/// What the numeric kernel found when it applied one generator to one point.
#[derive(Debug, Clone, Copy)]
pub enum Outcome<P> {
    /// The point does not belong to the generator.
    Outside,
    /// The point belongs to the generator, which turns it into `point`, in
    /// the bucket `key`.
    Image { point: P, key: PointKey },
}

/// The question a search is waiting on: what does generator `generator` do to
/// the point of record `entry`?
#[derive(Debug, Clone, Copy, PartialEq, Eq, Structural)]
pub struct Probe {
    pub entry: usize,
    pub generator: usize,
}

/// The state of a point-orbit search, as mathematics.
///
/// The search is breadth first.  Records are expanded in the order in which
/// they were found, each by every generator in ascending order, until `budget`
/// records were expanded or none is left.
pub struct OrbitState<P> {
    /// The points found so far, in the order in which they were found.
    pub records: Seq<OrbitRecord<P>>,
    /// The bucket of each record's point.
    pub keys: Seq<PointKey>,
    /// How many generators act.
    pub generators: nat,
    /// How many records may be expanded.
    pub budget: nat,
    /// The record under expansion.
    pub entry: nat,
    /// The generator that is applied to it next.
    pub generator: nat,
}

impl<P> OrbitState<P> {
    /// The search before any question was asked: the seed alone.
    pub open spec fn start(seed: P, key: PointKey, generators: nat, budget: nat) -> Self {
        OrbitState {
            records: seq![OrbitRecord { point: seed, parent: 0 }],
            keys: seq![key],
            generators,
            budget,
            entry: 0,
            generator: 0,
        }
    }

    /// Whether a question is open.
    pub open spec fn active(self) -> bool {
        &&& self.entry < self.budget
        &&& self.entry < self.records.len()
        &&& self.generator < self.generators
    }

    /// The open question, if there is one.
    pub open spec fn probe(self) -> Option<Probe> {
        if self.active() {
            Some(Probe { entry: self.entry as usize, generator: self.generator as usize })
        } else {
            None
        }
    }

    /// Whether `outcome` brings a point in a bucket not seen before.
    pub open spec fn brings_new(self, outcome: Outcome<P>) -> bool {
        outcome matches Outcome::Image { key, .. } && !self.keys.contains(key)
    }

    /// The records after `outcome` was taken in: an image in a new bucket is
    /// appended, with the record under expansion as its parent.
    pub open spec fn take_in(self, outcome: Outcome<P>) -> Self {
        match outcome {
            Outcome::Image { point, key } if !self.keys.contains(key) => OrbitState {
                records: self.records.push(OrbitRecord { point, parent: self.entry as usize }),
                keys: self.keys.push(key),
                ..self
            },
            _ => self,
        }
    }

    /// The next question: the next generator, or the first generator on the
    /// next record.
    pub open spec fn advance(self) -> Self {
        if self.generator + 1 < self.generators {
            OrbitState { generator: self.generator + 1, ..self }
        } else {
            OrbitState { entry: self.entry + 1, generator: 0, ..self }
        }
    }

    /// The state after the open question was answered with `outcome`.  A
    /// search with no open question stays as it is.
    pub open spec fn resolve(self, outcome: Outcome<P>) -> Self {
        if self.active() {
            self.take_in(outcome).advance()
        } else {
            self
        }
    }

    /// The state after the questions were answered with `outcomes`, in order.
    pub open spec fn run(self, outcomes: Seq<Outcome<P>>) -> Self
        decreases outcomes.len(),
    {
        if outcomes.len() == 0 {
            self
        } else {
            self.run(outcomes.drop_last()).resolve(outcomes.last())
        }
    }

    /// What holds of every state that a search reaches.
    pub open spec fn wf(self) -> bool {
        &&& self.generators >= 1
        &&& self.generator < self.generators
        &&& self.records.len() >= 1
        &&& self.records.len() == self.keys.len()
        &&& self.keys.no_duplicates()
        &&& self.entry <= self.budget <= usize::MAX
        &&& self.entry <= self.records.len()
        &&& self.records[0].parent == 0
        &&& forall|i: int|
            1 <= i < self.records.len() ==> {
                &&& (#[trigger] self.records[i]).parent < i
                &&& self.records[i].parent < self.budget
                &&& self.records[i].parent <= self.entry
            }
        &&& forall|i: int, j: int|
            0 <= i <= j < self.records.len() ==> (#[trigger] self.records[i]).parent <= (
            #[trigger] self.records[j]).parent
    }

    /// Whether the search ran out of budget with records left to expand.
    pub open spec fn truncated(self) -> bool {
        self.records.len() > self.budget
    }
}

/// The bucket numbers under which a search keeps the keys it has seen.
spec fn parts_of(keys: Seq<PointKey>) -> Seq<Seq<i64>> {
    Seq::new(keys.len(), |i: int| point_parts(keys[i]))
}

proof fn lemma_parts_contains(keys: Seq<PointKey>, key: PointKey)
    ensures
        parts_of(keys).contains(point_parts(key)) == keys.contains(key),
{
    let flat = parts_of(keys);
    if flat.contains(point_parts(key)) {
        let i = choose|i: int| 0 <= i < flat.len() && flat[i] == point_parts(key);
        assert(point_parts(keys[i])[0] == point_parts(key)[0]);
        assert(point_parts(keys[i])[1] == point_parts(key)[1]);
        assert(keys[i] == key);
    }
    if keys.contains(key) {
        let i = choose|i: int| 0 <= i < keys.len() && keys[i] == key;
        assert(flat[i] == point_parts(key));
    }
}

/// A point-orbit search in progress.
///
/// The search does no arithmetic on points.  It asks one question at a time
/// ([`PointOrbit::pending`]) and takes the answer ([`PointOrbit::resolve`]);
/// [`expand_seed`] puts the questions to a numeric kernel until none is left.
pub struct PointOrbit<P> {
    records: Vec<OrbitRecord<P>>,
    keys: Vec<PointKey>,
    seen: BucketSet,
    generators: usize,
    budget: usize,
    entry: usize,
    generator: usize,
}

impl<P> View for PointOrbit<P> {
    type V = OrbitState<P>;

    closed spec fn view(&self) -> OrbitState<P> {
        OrbitState {
            records: self.records@,
            keys: self.keys@,
            generators: self.generators as nat,
            budget: self.budget as nat,
            entry: self.entry as nat,
            generator: self.generator as nat,
        }
    }
}

impl<P> PointOrbit<P> {
    /// The search is in a state that a search can reach, and its set of seen
    /// buckets holds the keys of its records.
    pub closed spec fn wf(&self) -> bool {
        &&& self@.wf()
        &&& self.seen.wf()
        &&& self.seen@ == parts_of(self.keys@)
    }

    /// A well-formed search is in a well-formed state.
    pub proof fn lemma_wf(&self)
        requires
            self.wf(),
        ensures
            self@.wf(),
    {
    }

    /// A search from `seed`, whose bucket is `key`, under `generators`
    /// generators, that expands `depth` records at most.
    pub fn new(seed: P, key: PointKey, generators: usize, depth: u32) -> (search: Self)
        requires
            generators >= 1,
        ensures
            search.wf(),
            search@ == OrbitState::start(seed, key, generators as nat, depth as nat),
    {
        let mut records: Vec<OrbitRecord<P>> = Vec::new();
        records.push(OrbitRecord { point: seed, parent: 0 });
        let mut keys: Vec<PointKey> = Vec::new();
        keys.push(key);
        let mut seen = BucketSet::new();
        let mut parts: Vec<i64> = Vec::new();
        parts.push(key.x);
        parts.push(key.y);
        assert(parts@ =~= point_parts(key));
        seen.insert(parts);
        let search = PointOrbit {
            records,
            keys,
            seen,
            generators,
            budget: depth as usize,
            entry: 0,
            generator: 0,
        };
        assert(search.seen@ =~= parts_of(search.keys@));
        assert(search@.records =~= seq![OrbitRecord { point: seed, parent: 0 }]);
        assert(search@.keys =~= seq![key]);
        search
    }

    /// The open question, or `None` when the search is over.
    pub fn pending(&self) -> (probe: Option<Probe>)
        requires
            self.wf(),
        ensures
            probe == self@.probe(),
    {
        if self.entry < self.budget && self.entry < self.records.len() {
            Some(Probe { entry: self.entry, generator: self.generator })
        } else {
            None
        }
    }

    /// Takes the answer to the open question and moves on to the next one.
    /// Says whether the answer brought a new record.
    pub fn resolve(&mut self, outcome: Outcome<P>) -> (grew: bool)
        requires
            old(self).wf(),
        ensures
            final(self).wf(),
            final(self)@ == old(self)@.resolve(outcome),
            grew == (old(self)@.active() && old(self)@.brings_new(outcome)),
    {
        if !(self.entry < self.budget && self.entry < self.records.len()) {
            return false;
        }
        let mut grew = false;
        match outcome {
            Outcome::Image { point, key } => {
                let mut parts: Vec<i64> = Vec::new();
                parts.push(key.x);
                parts.push(key.y);
                assert(parts@ =~= point_parts(key));
                proof {
                    lemma_parts_contains(self.keys@, key);
                }
                if self.seen.insert(parts) {
                    self.records.push(OrbitRecord { point, parent: self.entry });
                    self.keys.push(key);
                    grew = true;
                    assert(self.seen@ =~= parts_of(self.keys@));
                }
            },
            Outcome::Outside => {},
        }
        if self.generator + 1 < self.generators {
            self.generator = self.generator + 1;
        } else {
            self.entry = self.entry + 1;
            self.generator = 0;
        }
        proof {
            lemma_resolve_wf(old(self)@, outcome);
        }
        grew
    }

    /// The records found so far, in the order in which they were found.
    pub fn records(&self) -> (records: &Vec<OrbitRecord<P>>)
        ensures
            records@ == self@.records,
    {
        &self.records
    }

    /// The bucket of each record.
    pub fn keys(&self) -> (keys: &Vec<PointKey>)
        ensures
            keys@ == self@.keys,
    {
        &self.keys
    }

    /// How many records were found so far.
    pub fn len(&self) -> (n: usize)
        ensures
            n == self@.records.len(),
    {
        self.records.len()
    }

    /// Whether more records were found than the budget lets expand: the orbit
    /// did not close.
    pub fn truncated(&self) -> (cut: bool)
        ensures
            cut == self@.truncated(),
    {
        self.records.len() > self.budget
    }

    /// Ends the search and hands out its records.
    pub fn into_records(self) -> (records: Vec<OrbitRecord<P>>)
        ensures
            records@ == self@.records,
    {
        self.records
    }
}

/// One answer keeps a search well formed.
pub proof fn lemma_resolve_wf<P>(state: OrbitState<P>, outcome: Outcome<P>)
    requires
        state.wf(),
    ensures
        state.resolve(outcome).wf(),
{
    if state.active() {
        let taken = state.take_in(outcome);
        assert(taken.keys.no_duplicates());
        assert(taken.wf());
    }
}

/// Whether `outcome` is an answer of the numeric kernel to the question what
/// `circle` does to `point`: the point is tested against the circle, the
/// generator's inversion flag is applied, and a point that belongs to the
/// generator is turned and put into its bucket.
pub open spec fn answers<P, R, FC, FR, FK>(
    circle: RotCircle<P, R>,
    point: P,
    in_circle: FC,
    rotate: FR,
    bucket: FK,
    outcome: Outcome<P>,
) -> bool where
    FC: Fn(&Circle<P, R>, &P) -> bool,
    FR: Fn(&RotCircle<P, R>, &P) -> P,
    FK: Fn(&P) -> PointKey,
 {
    exists|raw: bool| #[trigger]
        call_ensures(in_circle, (&circle.circle, &point), raw) && if circle.holds(raw) {
            &&& outcome matches Outcome::Image { point: image, key }
            &&& call_ensures(rotate, (&circle, &point), image)
            &&& call_ensures(bucket, (&image,), key)
        } else {
            outcome is Outside
        }
}

/// Whether `outcomes` are answers of the numeric kernel to the questions that
/// a search from `start` asks, one after the other.
pub open spec fn follows<P, R, FC, FR, FK>(
    start: OrbitState<P>,
    circles: Seq<RotCircle<P, R>>,
    in_circle: FC,
    rotate: FR,
    bucket: FK,
    outcomes: Seq<Outcome<P>>,
) -> bool where
    FC: Fn(&Circle<P, R>, &P) -> bool,
    FR: Fn(&RotCircle<P, R>, &P) -> P,
    FK: Fn(&P) -> PointKey,

    decreases outcomes.len(),
{
    if outcomes.len() == 0 {
        true
    } else {
        let before = start.run(outcomes.drop_last());
        &&& follows(start, circles, in_circle, rotate, bucket, outcomes.drop_last())
        &&& before.active()
        &&& answers(
            circles[before.generator as int],
            before.records[before.entry as int].point,
            in_circle,
            rotate,
            bucket,
            outcomes.last(),
        )
    }
}

/// Whether `end` is the state in which a search from `seed` under `circles`
/// ends when it expands `depth` records at most and `outcomes` are the answers
/// of the numeric kernel on the way.
pub open spec fn expands_to<P, R, FC, FR, FK>(
    seed: P,
    circles: Seq<RotCircle<P, R>>,
    depth: u32,
    in_circle: FC,
    rotate: FR,
    bucket: FK,
    key: PointKey,
    outcomes: Seq<Outcome<P>>,
    end: OrbitState<P>,
) -> bool where
    FC: Fn(&Circle<P, R>, &P) -> bool,
    FR: Fn(&RotCircle<P, R>, &P) -> P,
    FK: Fn(&P) -> PointKey,
 {
    let start = OrbitState::start(seed, key, circles.len(), depth as nat);
    &&& call_ensures(bucket, (&seed,), key)
    &&& follows(start, circles, in_circle, rotate, bucket, outcomes)
    &&& end == start.run(outcomes)
    &&& !end.active()
}

/// Explores the orbit of `seed` under `circles`, breadth first.
///
/// Records are expanded in the order in which they were found.  To expand a
/// record, each generator is tried in ascending order; one that the point
/// belongs to turns it, and the image becomes a new record unless a point of
/// its bucket was found before.  The search ends when `depth` records were
/// expanded or when none is left.
///
/// The numeric kernel comes as three functions: `in_circle` tests a point
/// against a circle, `rotate` turns a point about a generator's centre, and
/// `bucket` names the bucket of a point.
pub fn expand_seed<P: Copy, R, FC, FR, FK>(
    seed: P,
    circles: &Vec<RotCircle<P, R>>,
    depth: u32,
    in_circle: FC,
    rotate: FR,
    bucket: FK,
) -> (search: PointOrbit<P>) where
    FC: Fn(&Circle<P, R>, &P) -> bool,
    FR: Fn(&RotCircle<P, R>, &P) -> P,
    FK: Fn(&P) -> PointKey,

    requires
        circles.len() >= 1,
        forall|c: &Circle<P, R>, p: &P| call_requires(in_circle, (c, p)),
        forall|g: &RotCircle<P, R>, p: &P| call_requires(rotate, (g, p)),
        forall|p: &P| call_requires(bucket, (p,)),
    ensures
        search.wf(),
        search@.generators == circles@.len(),
        search@.budget == depth,
        search@.records[0] == (OrbitRecord { point: seed, parent: 0 }),
        !search@.active(),
        exists|key: PointKey, outcomes: Seq<Outcome<P>>| #[trigger]
            expands_to(seed, circles@, depth, in_circle, rotate, bucket, key, outcomes, search@),
{
    let key = bucket(&seed);
    let mut search = PointOrbit::new(seed, key, circles.len(), depth);
    let ghost start = search@;
    let ghost mut trace: Seq<Outcome<P>> = Seq::empty();
    loop
        invariant
            search.wf(),
            start == OrbitState::start(seed, key, circles@.len(), depth as nat),
            search@ == start.run(trace),
            search@.generators == circles@.len(),
            follows(start, circles@, in_circle, rotate, bucket, trace),
            forall|c: &Circle<P, R>, p: &P| call_requires(in_circle, (c, p)),
            forall|g: &RotCircle<P, R>, p: &P| call_requires(rotate, (g, p)),
            forall|p: &P| call_requires(bucket, (p,)),
        ensures
            !search@.active(),
        decreases search@.budget - search@.entry, search@.generators - search@.generator,
    {
        proof {
            search.lemma_wf();
        }
        match search.pending() {
            None => {
                break ;
            },
            Some(probe) => {
                let circle = &circles[probe.generator];
                let point = search.records()[probe.entry].point;
                let outcome = if circle.contains(&point, &in_circle) {
                    let image = rotate(circle, &point);
                    let key = bucket(&image);
                    Outcome::Image { point: image, key }
                } else {
                    Outcome::Outside
                };
                assert(answers(*circle, point, in_circle, rotate, bucket, outcome));
                search.resolve(outcome);
                proof {
                    let longer = trace.push(outcome);
                    assert(longer.drop_last() =~= trace);
                    assert(longer.last() == outcome);
                    trace = longer;
                }
            },
        }
    }
    proof {
        lemma_run_grows(start, trace);
    }
    assert(expands_to(seed, circles@, depth, in_circle, rotate, bucket, key, trace, search@));
    search
}

} // verus!
