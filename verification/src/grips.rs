use vstd::prelude::*;
use crate::bucket::{offered, BucketSet, CircleKey};
use crate::geom::{Circle, RotCircle};
use crate::puzzle::{Grip, Piece};

verus! {

/// One generator of a grip set as the search sees it: where the generator
/// stands, the bucket it falls into there, and whether it holds the seed.
#[derive(Debug, Clone, Copy)]
pub struct Member<P, R> {
    pub circle: RotCircle<P, R>,
    pub key: CircleKey,
    pub inside: bool,
}

/// The key under which a generator's image counts as a grip: the bucket of its
/// centre, the bucket of its radius, and its order.
pub open spec fn grip_parts<P, R>(member: Member<P, R>) -> Seq<i64> {
    seq![member.key.centre.x, member.key.centre.y, member.key.radius, member.circle.step as i64]
}

/// The key of a grip set: the buckets of its members' centres, in order.
/// Radius and order do not change under the generators and stay out of it.
pub open spec fn set_parts<P, R>(set: Seq<Member<P, R>>) -> Seq<i64> {
    Seq::new(
        2 * set.len(),
        |i: int|
            if i % 2 == 0 {
                set[i / 2].key.centre.x
            } else {
                set[i / 2].key.centre.y
            },
    )
}

impl<P, R> Member<P, R> {
    /// The key of the member as a grip.
    pub fn approx_hash(&self) -> (parts: Vec<i64>)
        ensures
            parts@ == grip_parts(*self),
    {
        let mut parts: Vec<i64> = Vec::new();
        parts.push(self.key.centre.x);
        parts.push(self.key.centre.y);
        parts.push(self.key.radius);
        parts.push(self.circle.step as i64);
        assert(parts@ =~= grip_parts(*self));
        parts
    }
}

/// The images of all generators under one element of the group that the
/// generators span: member `i` is the image of the `i`-th generator.
#[derive(Debug, Clone)]
pub struct GripSet<P, R> {
    pub members: Vec<Member<P, R>>,
}

impl<P, R> View for GripSet<P, R> {
    type V = Seq<Member<P, R>>;

    open spec fn view(&self) -> Seq<Member<P, R>> {
        self.members@
    }
}

impl<P, R> GripSet<P, R> {
    pub fn len(&self) -> (n: usize)
        ensures
            n == self@.len(),
    {
        self.members.len()
    }

    /// The key of the set.
    pub fn approx_hash(&self) -> (parts: Vec<i64>)
        ensures
            parts@ == set_parts(self@),
    {
        let mut parts: Vec<i64> = Vec::new();
        let mut k: usize = 0;
        while k < self.members.len()
            invariant
                k <= self.members.len(),
                parts@.len() == 2 * k,
                forall|j: int|
                    0 <= j < k ==> parts@[2 * j] == self@[j].key.centre.x && parts@[2 * j + 1]
                        == self@[j].key.centre.y,
            decreases self.members.len() - k,
        {
            parts.push(self.members[k].key.centre.x);
            parts.push(self.members[k].key.centre.y);
            k += 1;
        }
        assert forall|i: int| 0 <= i < parts@.len() implies parts@[i] == set_parts(self@)[i] by {
            let j = i / 2;
            if i % 2 == 0 {
                assert(i == 2 * j);
            } else {
                assert(i == 2 * j + 1);
            }
        }
        assert(parts@ =~= set_parts(self@));
        parts
    }
}

/// What a grip search has found: the keys of the grips seen so far, and the
/// grips that were emitted.
pub struct Found<P> {
    pub seen: Seq<Seq<i64>>,
    pub grips: Seq<Grip<P>>,
}

/// What is found after one member of a grip set was looked at.  A member that
/// holds the seed is seen; it is emitted as a grip if it was not seen before.
/// A member of the generators themselves (`seeding`) that holds the seed is
/// emitted in any case.
pub open spec fn spot<P, R>(found: Found<P>, member: Member<P, R>, id: nat, seeding: bool) -> Found<P> {
    if member.inside {
        Found {
            seen: offered(found.seen, grip_parts(member)),
            grips: if seeding || !found.seen.contains(grip_parts(member)) {
                found.grips.push(Grip { pos: member.circle.circle.cen, id: id as usize })
            } else {
                found.grips
            },
        }
    } else {
        found
    }
}

/// What is found after the first `upto` members of `set` were looked at, in
/// ascending order.
pub open spec fn sweep<P, R>(found: Found<P>, set: Seq<Member<P, R>>, upto: nat, seeding: bool) -> Found<P>
    decreases upto,
{
    if upto == 0 {
        found
    } else {
        spot(sweep(found, set, (upto - 1) as nat, seeding), set[upto - 1], (upto - 1) as nat, seeding)
    }
}

/// Whether `set` has the generators of `base`, index by index, with nothing
/// but the centres changed.
pub open spec fn aligned<P, R>(base: Seq<Member<P, R>>, set: Seq<Member<P, R>>) -> bool {
    &&& set.len() == base.len()
    &&& forall|k: int|
        0 <= k < base.len() ==> base[k].circle.moved_to(
            (#[trigger] set[k]).circle.circle.cen,
            set[k].circle,
        )
}

/// The question a grip search is waiting on: does member `member` of set
/// `set` hold the seed, and if so, what does its rotation make of the set?
#[derive(Debug, Clone, Copy, PartialEq, Eq, Structural)]
pub struct Turn {
    pub set: usize,
    pub member: usize,
}

/// The state of a grip search, as mathematics.
///
/// The search is breadth first over grip sets.  Sets are expanded in the order
/// in which they were found, each by every member in ascending order, until
/// `budget` sets were expanded or none is left.
pub struct GripState<P, R> {
    /// The grip sets found so far; the first holds the generators themselves.
    pub sets: Seq<Seq<Member<P, R>>>,
    /// The grips seen and emitted so far.
    pub found: Found<P>,
    /// How many sets may be expanded.
    pub budget: nat,
    /// The set under expansion.
    pub set: nat,
    /// The member whose rotation is applied to it next.
    pub member: nat,
}

impl<P, R> GripState<P, R> {
    /// The search before any question was asked: the generators themselves,
    /// and those of them that hold the seed as grips.
    pub open spec fn start(base: Seq<Member<P, R>>, budget: nat) -> Self {
        GripState {
            sets: seq![base],
            found: sweep(Found { seen: Seq::empty(), grips: Seq::empty() }, base, base.len(), true),
            budget,
            set: 0,
            member: 0,
        }
    }

    /// How many generators act.
    pub open spec fn generators(self) -> nat {
        self.sets[0].len()
    }

    /// The key of each set found so far.
    pub open spec fn set_keys(self) -> Seq<Seq<i64>> {
        Seq::new(self.sets.len(), |i: int| set_parts(self.sets[i]))
    }

    /// Whether a question is open.
    pub open spec fn active(self) -> bool {
        &&& self.set < self.budget
        &&& self.set < self.sets.len()
        &&& self.member < self.generators()
    }

    /// The open question, if there is one.
    pub open spec fn turn(self) -> Option<Turn> {
        if self.active() {
            Some(Turn { set: self.set as usize, member: self.member as usize })
        } else {
            None
        }
    }

    /// Whether `moved` brings a grip set under a key not seen before.
    pub open spec fn brings_new(self, moved: Option<Seq<Member<P, R>>>) -> bool {
        moved matches Some(set) && !self.set_keys().contains(set_parts(set))
    }

    /// The state after `moved` was taken in.  A set under a new key joins the
    /// sets, and its members that hold the seed and were not seen before are
    /// emitted as grips, in ascending order.
    pub open spec fn take_in(self, moved: Option<Seq<Member<P, R>>>) -> Self {
        match moved {
            Some(set) if !self.set_keys().contains(set_parts(set)) => GripState {
                sets: self.sets.push(set),
                found: sweep(self.found, set, set.len(), false),
                ..self
            },
            _ => self,
        }
    }

    /// The next question: the next member, or the first member of the next
    /// set.
    pub open spec fn advance(self) -> Self {
        if self.member + 1 < self.generators() {
            GripState { member: self.member + 1, ..self }
        } else {
            GripState { set: self.set + 1, member: 0, ..self }
        }
    }

    /// The state after the open question was answered: with `None` where the
    /// member does not hold the seed, else with the set that its rotation
    /// makes.  A search with no open question stays as it is.
    pub open spec fn resolve(self, moved: Option<Seq<Member<P, R>>>) -> Self {
        if self.active() {
            self.take_in(moved).advance()
        } else {
            self
        }
    }

    /// The state after the questions were answered with `arrivals`, in order.
    pub open spec fn run(self, arrivals: Seq<Option<Seq<Member<P, R>>>>) -> Self
        decreases arrivals.len(),
    {
        if arrivals.len() == 0 {
            self
        } else {
            self.run(arrivals.drop_last()).resolve(arrivals.last())
        }
    }

    /// Whether `moved` is an answer that the search can take: a set, if any,
    /// has the generators of the search.
    pub open spec fn fits(self, moved: Option<Seq<Member<P, R>>>) -> bool {
        moved matches Some(set) ==> aligned(self.sets[0], set)
    }

    /// What holds of every state that a search reaches.
    pub open spec fn wf(self) -> bool {
        &&& self.sets.len() >= 1
        &&& self.generators() <= usize::MAX
        &&& forall|i: int| 0 <= i < self.sets.len() ==> aligned(self.sets[0], #[trigger] self.sets[i])
        &&& self.set_keys().no_duplicates()
        &&& self.found.seen.no_duplicates()
        &&& forall|g: int|
            0 <= g < self.found.grips.len() ==> (#[trigger] self.found.grips[g]).id < self.generators()
        &&& self.set <= self.budget <= usize::MAX
        &&& self.set <= self.sets.len()
        &&& self.member <= self.generators()
        &&& self.generators() > 0 ==> self.member < self.generators()
    }
}

/// Looking at members keeps the seen keys distinct, and a grip carries the
/// index of the member it came from.
pub proof fn lemma_sweep<P, R>(found: Found<P>, set: Seq<Member<P, R>>, upto: nat, seeding: bool, bound: nat)
    requires
        found.seen.no_duplicates(),
        upto <= set.len() <= bound,
        forall|g: int| 0 <= g < found.grips.len() ==> (#[trigger] found.grips[g]).id < bound,
        bound <= usize::MAX,
    ensures
        sweep(found, set, upto, seeding).seen.no_duplicates(),
        forall|g: int|
            0 <= g < sweep(found, set, upto, seeding).grips.len() ==> (#[trigger] sweep(
                found,
                set,
                upto,
                seeding,
            ).grips[g]).id < bound,
        found.grips.is_prefix_of(sweep(found, set, upto, seeding).grips),
        found.seen.is_prefix_of(sweep(found, set, upto, seeding).seen),
    decreases upto,
{
    if upto > 0 {
        lemma_sweep(found, set, (upto - 1) as nat, seeding, bound);
    }
}

/// One answer that fits keeps a search well formed.
pub proof fn lemma_resolve_wf<P, R>(state: GripState<P, R>, moved: Option<Seq<Member<P, R>>>)
    requires
        state.wf(),
        state.fits(moved),
    ensures
        state.resolve(moved).wf(),
        state.resolve(moved).sets[0] == state.sets[0],
{
    if state.active() {
        let taken = state.take_in(moved);
        if state.brings_new(moved) {
            let set = moved->Some_0;
            lemma_sweep(state.found, set, set.len(), false, state.generators());
            assert(taken.set_keys() =~= state.set_keys().push(set_parts(set)));
            assert(taken.set_keys().no_duplicates());
            assert forall|i: int| 0 <= i < taken.sets.len() implies aligned(taken.sets[0], #[trigger] taken.sets[i]) by {
                if i < state.sets.len() {
                    assert(taken.sets[i] == state.sets[i]);
                }
            }
        }
        assert(taken.wf());
    }
}

/// The answer that an exec value stands for.
pub open spec fn arrival<P, R>(moved: Option<GripSet<P, R>>) -> Option<Seq<Member<P, R>>> {
    match moved {
        Some(set) => Some(set@),
        None => None,
    }
}

/// Looks at the members of `set` in ascending order, and keeps what is found
/// in `seen` and `grips`.
fn sweep_into<P: Copy, R>(
    seen: &mut BucketSet,
    grips: &mut Vec<Grip<P>>,
    set: &Vec<Member<P, R>>,
    seeding: bool,
)
    requires
        old(seen).wf(),
    ensures
        final(seen).wf(),
        (Found { seen: final(seen)@, grips: final(grips)@ }) == sweep(
            Found { seen: old(seen)@, grips: old(grips)@ },
            set@,
            set@.len(),
            seeding,
        ),
{
    let ghost before = Found { seen: seen@, grips: grips@ };
    let mut k: usize = 0;
    while k < set.len()
        invariant
            k <= set.len(),
            seen.wf(),
            (Found { seen: seen@, grips: grips@ }) == sweep(before, set@, k as nat, seeding),
        decreases set.len() - k,
    {
        if set[k].inside {
            let fresh = seen.insert(set[k].approx_hash());
            if fresh || seeding {
                grips.push(Grip { pos: set[k].circle.circle.cen, id: k });
            }
        }
        k += 1;
    }
}

/// A grip search in progress.
///
/// The search does no arithmetic on circles.  It asks one question at a time
/// ([`GripSearch::pending`]) and takes the answer ([`GripSearch::resolve`]);
/// [`expand_grips`] puts the questions to a numeric kernel until none is left.
pub struct GripSearch<P, R> {
    sets: Vec<GripSet<P, R>>,
    seen_sets: BucketSet,
    seen_grips: BucketSet,
    grips: Vec<Grip<P>>,
    budget: usize,
    set: usize,
    member: usize,
}

impl<P, R> View for GripSearch<P, R> {
    type V = GripState<P, R>;

    closed spec fn view(&self) -> GripState<P, R> {
        GripState {
            sets: Seq::new(self.sets@.len(), |i: int| self.sets@[i]@),
            found: Found { seen: self.seen_grips@, grips: self.grips@ },
            budget: self.budget as nat,
            set: self.set as nat,
            member: self.member as nat,
        }
    }
}

impl<P: Copy, R> GripSearch<P, R> {
    /// The search is in a state that a search can reach, and its sets of seen
    /// keys hold what the state says.
    pub closed spec fn wf(&self) -> bool {
        &&& self@.wf()
        &&& self.seen_sets.wf()
        &&& self.seen_grips.wf()
        &&& self.seen_sets@ == self@.set_keys()
    }

    /// A well-formed search is in a well-formed state.
    pub proof fn lemma_wf(&self)
        requires
            self.wf(),
        ensures
            self@.wf(),
    {
    }

    /// A search over the images of `base`, the generators themselves, that
    /// expands `depth` grip sets at most.
    pub fn new(base: GripSet<P, R>, depth: u32) -> (search: Self)
        ensures
            search.wf(),
            search@ == GripState::start(base@, depth as nat),
    {
        let mut seen_sets = BucketSet::new();
        seen_sets.insert(base.approx_hash());
        let mut seen_grips = BucketSet::new();
        let mut grips: Vec<Grip<P>> = Vec::new();
        sweep_into(&mut seen_grips, &mut grips, &base.members, true);
        let ghost first = base@;
        assert(first.len() == base.members.len());
        let mut sets: Vec<GripSet<P, R>> = Vec::new();
        sets.push(base);
        let search = GripSearch {
            sets,
            seen_sets,
            seen_grips,
            grips,
            budget: depth as usize,
            set: 0,
            member: 0,
        };
        proof {
            let none = Found::<P> { seen: Seq::empty(), grips: Seq::empty() };
            lemma_sweep(none, first, first.len(), true, first.len());
            assert(search@.sets =~= seq![first]);
            assert(search@.set_keys() =~= seq![set_parts(first)]);
            assert(search.seen_sets@ =~= search@.set_keys());
            assert(aligned(first, first));
        }
        search
    }

    /// The open question, or `None` when the search is over.
    pub fn pending(&self) -> (turn: Option<Turn>)
        requires
            self.wf(),
        ensures
            turn == self@.turn(),
    {
        if self.set < self.budget && self.set < self.sets.len() && self.member < self.sets[0].len() {
            Some(Turn { set: self.set, member: self.member })
        } else {
            None
        }
    }

    /// Takes the answer to the open question and moves on to the next one:
    /// `None` where the member does not hold the seed, else the set that its
    /// rotation makes.  Says whether the answer brought a new set.
    pub fn resolve(&mut self, moved: Option<GripSet<P, R>>) -> (grew: bool)
        requires
            old(self).wf(),
            old(self)@.fits(arrival(moved)),
        ensures
            final(self).wf(),
            final(self)@ == old(self)@.resolve(arrival(moved)),
            grew == (old(self)@.active() && old(self)@.brings_new(arrival(moved))),
    {
        if !(self.set < self.budget && self.set < self.sets.len() && self.member < self.sets[0].len()) {
            return false;
        }
        let ghost before = self@;
        let mut grew = false;
        match moved {
            Some(set) => {
                if self.seen_sets.insert(set.approx_hash()) {
                    sweep_into(&mut self.seen_grips, &mut self.grips, &set.members, false);
                    let ghost added = set@;
                    self.sets.push(set);
                    grew = true;
                    assert(self@.sets =~= before.sets.push(added));
                    assert(self@.set_keys() =~= before.set_keys().push(set_parts(added)));
                }
            },
            None => {},
        }
        assert(self@ == before.take_in(arrival(moved)));
        if self.member + 1 < self.sets[0].len() {
            self.member = self.member + 1;
        } else {
            self.set = self.set + 1;
            self.member = 0;
        }
        proof {
            lemma_resolve_wf(before, arrival(moved));
        }
        grew
    }

    /// The grip sets found so far, in the order in which they were found.
    pub fn sets(&self) -> (sets: &Vec<GripSet<P, R>>)
        ensures
            sets@.len() == self@.sets.len(),
            forall|i: int| 0 <= i < sets@.len() ==> (#[trigger] sets@[i])@ == self@.sets[i],
    {
        &self.sets
    }

    /// The grips emitted so far, in the order in which they were found.
    pub fn grips(&self) -> (grips: &Vec<Grip<P>>)
        ensures
            grips@ == self@.found.grips,
    {
        &self.grips
    }

    /// Ends the search and hands out the piece that its grips make.
    pub fn into_piece(self) -> (piece: Piece<P>)
        ensures
            piece@ == self@.found.grips,
    {
        Piece::new(self.grips)
    }
}

/// Whether `member` is `circle` as the numeric kernel sees it from `seed`:
/// with the bucket it falls into, and with whether it holds the seed.
pub open spec fn sees<P, R, FC, FK>(
    circle: RotCircle<P, R>,
    seed: P,
    in_circle: FC,
    bucket: FK,
    member: Member<P, R>,
) -> bool where FC: Fn(&Circle<P, R>, &P) -> bool, FK: Fn(&RotCircle<P, R>) -> CircleKey {
    &&& member.circle == circle
    &&& call_ensures(bucket, (&circle,), member.key)
    &&& exists|raw: bool| #[trigger]
        call_ensures(in_circle, (&circle.circle, &seed), raw) && member.inside == circle.holds(raw)
}

/// Whether `moved` is the image of the generator `from` under the rotation of
/// `by`, as the numeric kernel sees it from `seed`: `from` about the image of
/// its centre, and nothing else changed.
pub open spec fn turns<P, R, FC, FR, FK>(
    by: RotCircle<P, R>,
    from: RotCircle<P, R>,
    seed: P,
    in_circle: FC,
    rotate: FR,
    bucket: FK,
    moved: Member<P, R>,
) -> bool where
    FC: Fn(&Circle<P, R>, &P) -> bool,
    FR: Fn(&RotCircle<P, R>, &P) -> P,
    FK: Fn(&RotCircle<P, R>) -> CircleKey,
 {
    &&& call_ensures(rotate, (&by, &from.circle.cen), moved.circle.circle.cen)
    &&& from.moved_to(moved.circle.circle.cen, moved.circle)
    &&& sees(moved.circle, seed, in_circle, bucket, moved)
}

/// Whether `moved` is `set` with the rotation of its member `index` applied to
/// every member, index by index.
pub open spec fn rotated_by<P, R, FC, FR, FK>(
    set: Seq<Member<P, R>>,
    index: int,
    seed: P,
    in_circle: FC,
    rotate: FR,
    bucket: FK,
    moved: Seq<Member<P, R>>,
) -> bool where
    FC: Fn(&Circle<P, R>, &P) -> bool,
    FR: Fn(&RotCircle<P, R>, &P) -> P,
    FK: Fn(&RotCircle<P, R>) -> CircleKey,
 {
    &&& moved.len() == set.len()
    &&& forall|k: int|
        0 <= k < set.len() ==> turns(
            set[index].circle,
            set[k].circle,
            seed,
            in_circle,
            rotate,
            bucket,
            #[trigger] moved[k],
        )
}

/// Whether `base` is the generators `circles` as the numeric kernel sees them
/// from `seed`.
pub open spec fn sighted<P, R, FC, FK>(
    circles: Seq<RotCircle<P, R>>,
    seed: P,
    in_circle: FC,
    bucket: FK,
    base: Seq<Member<P, R>>,
) -> bool where FC: Fn(&Circle<P, R>, &P) -> bool, FK: Fn(&RotCircle<P, R>) -> CircleKey {
    &&& base.len() == circles.len()
    &&& forall|k: int|
        0 <= k < circles.len() ==> sees(circles[k], seed, in_circle, bucket, #[trigger] base[k])
}

/// The generator `circle` as the numeric kernel sees it from `seed`.
fn sight<P: Copy, R: Copy, FC, FK>(circle: RotCircle<P, R>, seed: &P, in_circle: &FC, bucket: &FK) -> (member:
    Member<P, R>) where FC: Fn(&Circle<P, R>, &P) -> bool, FK: Fn(&RotCircle<P, R>) -> CircleKey
    requires
        call_requires(*in_circle, (&circle.circle, seed)),
        call_requires(*bucket, (&circle,)),
    ensures
        sees(circle, *seed, *in_circle, *bucket, member),
{
    let key = bucket(&circle);
    let inside = circle.contains(seed, in_circle);
    Member { circle, key, inside }
}

impl<P: Copy, R: Copy> GripSet<P, R> {
    /// The generators themselves as a grip set, seen from `seed`.
    pub fn of_generators<FC, FK>(circles: &Vec<RotCircle<P, R>>, seed: &P, in_circle: &FC, bucket: &FK) -> (base:
        Self) where FC: Fn(&Circle<P, R>, &P) -> bool, FK: Fn(&RotCircle<P, R>) -> CircleKey
        requires
            forall|c: &Circle<P, R>, p: &P| call_requires(*in_circle, (c, p)),
            forall|g: &RotCircle<P, R>| call_requires(*bucket, (g,)),
        ensures
            sighted(circles@, *seed, *in_circle, *bucket, base@),
    {
        let mut members: Vec<Member<P, R>> = Vec::new();
        let mut k: usize = 0;
        while k < circles.len()
            invariant
                k <= circles.len(),
                members@.len() == k,
                forall|j: int|
                    0 <= j < k ==> sees(circles@[j], *seed, *in_circle, *bucket, #[trigger] members@[j]),
                forall|c: &Circle<P, R>, p: &P| call_requires(*in_circle, (c, p)),
                forall|g: &RotCircle<P, R>| call_requires(*bucket, (g,)),
            decreases circles.len() - k,
        {
            members.push(sight(circles[k], seed, in_circle, bucket));
            k += 1;
        }
        GripSet { members }
    }

    /// The set with the rotation of its member `index` applied to every
    /// member.  Member `k` of the result is the image of member `k`: the same
    /// generator about the image of its centre.
    pub fn rotate_by<FC, FR, FK>(&self, index: usize, seed: &P, in_circle: &FC, rotate: &FR, bucket: &FK) -> (moved:
        Self) where
        FC: Fn(&Circle<P, R>, &P) -> bool,
        FR: Fn(&RotCircle<P, R>, &P) -> P,
        FK: Fn(&RotCircle<P, R>) -> CircleKey,

        requires
            index < self@.len(),
            forall|c: &Circle<P, R>, p: &P| call_requires(*in_circle, (c, p)),
            forall|g: &RotCircle<P, R>, p: &P| call_requires(*rotate, (g, p)),
            forall|g: &RotCircle<P, R>| call_requires(*bucket, (g,)),
        ensures
            rotated_by(self@, index as int, *seed, *in_circle, *rotate, *bucket, moved@),
    {
        let by = self.members[index].circle;
        let mut members: Vec<Member<P, R>> = Vec::new();
        let mut k: usize = 0;
        while k < self.members.len()
            invariant
                k <= self.members.len(),
                index < self@.len(),
                by == self@[index as int].circle,
                members@.len() == k,
                forall|j: int|
                    0 <= j < k ==> turns(
                        by,
                        self@[j].circle,
                        *seed,
                        *in_circle,
                        *rotate,
                        *bucket,
                        #[trigger] members@[j],
                    ),
                forall|c: &Circle<P, R>, p: &P| call_requires(*in_circle, (c, p)),
                forall|g: &RotCircle<P, R>, p: &P| call_requires(*rotate, (g, p)),
                forall|g: &RotCircle<P, R>| call_requires(*bucket, (g,)),
            decreases self.members.len() - k,
        {
            let image = by.rotate_circle(&self.members[k].circle, rotate);
            members.push(sight(image, seed, in_circle, bucket));
            k += 1;
        }
        GripSet { members }
    }
}

/// Whether `moved` is an answer of the numeric kernel to the question whether
/// member `index` of `set` holds `seed`, and what its rotation makes of the
/// set.
pub open spec fn answers<P, R, FC, FR, FK>(
    set: Seq<Member<P, R>>,
    index: int,
    seed: P,
    in_circle: FC,
    rotate: FR,
    bucket: FK,
    moved: Option<Seq<Member<P, R>>>,
) -> bool where
    FC: Fn(&Circle<P, R>, &P) -> bool,
    FR: Fn(&RotCircle<P, R>, &P) -> P,
    FK: Fn(&RotCircle<P, R>) -> CircleKey,
 {
    exists|raw: bool| #[trigger]
        call_ensures(in_circle, (&set[index].circle.circle, &seed), raw) && if set[index].circle.holds(raw) {
            moved matches Some(new) && rotated_by(set, index, seed, in_circle, rotate, bucket, new)
        } else {
            moved is None
        }
}

/// Whether `arrivals` are answers of the numeric kernel to the questions that
/// a search from `start` asks, one after the other.
pub open spec fn follows<P, R, FC, FR, FK>(
    start: GripState<P, R>,
    seed: P,
    in_circle: FC,
    rotate: FR,
    bucket: FK,
    arrivals: Seq<Option<Seq<Member<P, R>>>>,
) -> bool where
    FC: Fn(&Circle<P, R>, &P) -> bool,
    FR: Fn(&RotCircle<P, R>, &P) -> P,
    FK: Fn(&RotCircle<P, R>) -> CircleKey,

    decreases arrivals.len(),
{
    if arrivals.len() == 0 {
        true
    } else {
        let before = start.run(arrivals.drop_last());
        &&& follows(start, seed, in_circle, rotate, bucket, arrivals.drop_last())
        &&& before.active()
        &&& answers(
            before.sets[before.set as int],
            before.member as int,
            seed,
            in_circle,
            rotate,
            bucket,
            arrivals.last(),
        )
    }
}

/// Whether `end` is the state in which a grip search for `seed` under
/// `circles` ends when it expands `depth` sets at most, `base` is how the
/// numeric kernel sees the generators, and `arrivals` are its answers on the
/// way.
pub open spec fn expands_to<P, R, FC, FR, FK>(
    seed: P,
    circles: Seq<RotCircle<P, R>>,
    depth: u32,
    in_circle: FC,
    rotate: FR,
    bucket: FK,
    base: Seq<Member<P, R>>,
    arrivals: Seq<Option<Seq<Member<P, R>>>>,
    end: GripState<P, R>,
) -> bool where
    FC: Fn(&Circle<P, R>, &P) -> bool,
    FR: Fn(&RotCircle<P, R>, &P) -> P,
    FK: Fn(&RotCircle<P, R>) -> CircleKey,
 {
    let start = GripState::start(base, depth as nat);
    &&& sighted(circles, seed, in_circle, bucket, base)
    &&& follows(start, seed, in_circle, rotate, bucket, arrivals)
    &&& end == start.run(arrivals)
    &&& !end.active()
}

/// Finds the grips that hold `seed`: the images of the generators `circles`,
/// under the group that they span, to which the seed belongs.
///
/// The search is breadth first over grip sets, from the generators
/// themselves.  To expand a set, each member is tried in ascending order; one
/// that holds the seed turns the whole set, and the turned set joins the
/// search unless a set of its key was found before.  Of a set that joins,
/// each member that holds the seed and was not seen as a grip before is
/// emitted, with the index of the generator it is an image of.  The search
/// ends when `depth` sets were expanded or when none is left.
///
/// The numeric kernel comes as three functions: `in_circle` tests a point
/// against a circle, `rotate` turns a point about a generator's centre, and
/// `bucket` names the bucket of a generator.
pub fn expand_grips<P: Copy, R: Copy, FC, FR, FK>(
    seed: P,
    circles: &Vec<RotCircle<P, R>>,
    depth: u32,
    in_circle: FC,
    rotate: FR,
    bucket: FK,
) -> (search: GripSearch<P, R>) where
    FC: Fn(&Circle<P, R>, &P) -> bool,
    FR: Fn(&RotCircle<P, R>, &P) -> P,
    FK: Fn(&RotCircle<P, R>) -> CircleKey,

    requires
        forall|c: &Circle<P, R>, p: &P| call_requires(in_circle, (c, p)),
        forall|g: &RotCircle<P, R>, p: &P| call_requires(rotate, (g, p)),
        forall|g: &RotCircle<P, R>| call_requires(bucket, (g,)),
    ensures
        search.wf(),
        search@.budget == depth,
        sighted(circles@, seed, in_circle, bucket, search@.sets[0]),
        !search@.active(),
        exists|base: Seq<Member<P, R>>, arrivals: Seq<Option<Seq<Member<P, R>>>>| #[trigger]
            expands_to(seed, circles@, depth, in_circle, rotate, bucket, base, arrivals, search@),
{
    let base = GripSet::of_generators(circles, &seed, &in_circle, &bucket);
    let ghost first = base@;
    let mut search = GripSearch::new(base, depth);
    let ghost start = search@;
    let ghost mut trace: Seq<Option<Seq<Member<P, R>>>> = Seq::empty();
    loop
        invariant
            search.wf(),
            start == GripState::start(first, depth as nat),
            search@ == start.run(trace),
            search@.sets[0] == first,
            search@.budget == depth,
            follows(start, seed, in_circle, rotate, bucket, trace),
            forall|c: &Circle<P, R>, p: &P| call_requires(in_circle, (c, p)),
            forall|g: &RotCircle<P, R>, p: &P| call_requires(rotate, (g, p)),
            forall|g: &RotCircle<P, R>| call_requires(bucket, (g,)),
        ensures
            !search@.active(),
        decreases search@.budget - search@.set, first.len() - search@.member,
    {
        proof {
            search.lemma_wf();
        }
        match search.pending() {
            None => {
                break ;
            },
            Some(turn) => {
                let set = &search.sets()[turn.set];
                let moved = if set.members[turn.member].circle.contains(&seed, &in_circle) {
                    Some(set.rotate_by(turn.member, &seed, &in_circle, &rotate, &bucket))
                } else {
                    None
                };
                let ghost answer = arrival(moved);
                assert(answers(set@, turn.member as int, seed, in_circle, rotate, bucket, answer));
                assert(search@.fits(answer)) by {
                    if moved is Some {
                        let new = moved->Some_0@;
                        assert(aligned(first, set@));
                        assert forall|k: int| 0 <= k < first.len() implies first[k].circle.moved_to(
                            (#[trigger] new[k]).circle.circle.cen,
                            new[k].circle,
                        ) by {
                            assert(set@[k].circle.moved_to(new[k].circle.circle.cen, new[k].circle));
                        }
                    }
                }
                search.resolve(moved);
                proof {
                    let longer = trace.push(answer);
                    assert(longer.drop_last() =~= trace);
                    assert(longer.last() == answer);
                    trace = longer;
                }
            },
        }
    }
    assert(expands_to(seed, circles@, depth, in_circle, rotate, bucket, first, trace, search@));
    search
}

} // verus!
