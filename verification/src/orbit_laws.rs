use vstd::prelude::*;
use crate::bucket::PointKey;
use crate::geom::{Circle, RotCircle};
use crate::orbit::{answers, expands_to, follows, lemma_resolve_wf, OrbitRecord, OrbitState, Outcome};

verus! {

/// Whatever the answers, a search stays well formed.  In particular no two
/// records of a search ever share a bucket, so a point that is offered twice
/// with the same coordinates is recorded once.
pub proof fn lemma_run_wf<P>(state: OrbitState<P>, outcomes: Seq<Outcome<P>>)
    requires
        state.wf(),
    ensures
        state.run(outcomes).wf(),
        state.run(outcomes).keys.no_duplicates(),
    decreases outcomes.len(),
{
    if outcomes.len() > 0 {
        lemma_run_wf(state, outcomes.drop_last());
        lemma_resolve_wf(state.run(outcomes.drop_last()), outcomes.last());
    }
}

/// A search keeps its generators and its budget, and what it found stays
/// where it is: later answers only append.
pub proof fn lemma_run_grows<P>(state: OrbitState<P>, outcomes: Seq<Outcome<P>>)
    requires
        state.records.len() == state.keys.len(),
    ensures
        state.run(outcomes).generators == state.generators,
        state.run(outcomes).budget == state.budget,
        state.run(outcomes).records.len() == state.run(outcomes).keys.len(),
        state.records.is_prefix_of(state.run(outcomes).records),
        state.keys.is_prefix_of(state.run(outcomes).keys),
    decreases outcomes.len(),
{
    if outcomes.len() > 0 {
        lemma_run_grows(state, outcomes.drop_last());
    }
}

/// A bucket that was offered while a question was open is seen from then on:
/// offering it again, at once or after any further answers, brings no record.
pub proof fn lemma_same_bucket_once<P>(
    state: OrbitState<P>,
    first: P,
    again: P,
    key: PointKey,
    between: Seq<Outcome<P>>,
)
    requires
        state.wf(),
        state.active(),
    ensures
        !state.resolve(Outcome::Image { point: first, key }).run(between).brings_new(
            Outcome::Image { point: again, key },
        ),
{
    let offered = state.resolve(Outcome::Image { point: first, key });
    lemma_resolve_wf(state, Outcome::Image { point: first, key });
    assert(offered.keys.contains(key)) by {
        if state.keys.contains(key) {
            let i = choose|i: int| 0 <= i < state.keys.len() && state.keys[i] == key;
            assert(offered.keys[i] == key);
        } else {
            assert(offered.keys[state.keys.len() as int] == key);
        }
    }
    lemma_run_grows(offered, between);
    let i = choose|i: int| 0 <= i < offered.keys.len() && offered.keys[i] == key;
    assert(offered.run(between).keys[i] == key);
}

/// When a search is over and was not cut short, every record was expanded:
/// the orbit is closed.  When it was cut short, exactly `budget` records were
/// expanded.
pub proof fn lemma_closed_or_truncated<P>(state: OrbitState<P>)
    requires
        state.wf(),
        !state.active(),
    ensures
        !state.truncated() ==> state.entry == state.records.len(),
        state.truncated() ==> state.entry == state.budget,
{
}

/// Answers that find every point outside its generator bring no record.
pub proof fn lemma_outside_everywhere<P>(state: OrbitState<P>, outcomes: Seq<Outcome<P>>)
    requires
        forall|i: int| 0 <= i < outcomes.len() ==> outcomes[i] is Outside,
    ensures
        state.run(outcomes).records == state.records,
        state.run(outcomes).keys == state.keys,
    decreases outcomes.len(),
{
    if outcomes.len() > 0 {
        assert forall|i: int| 0 <= i < outcomes.drop_last().len() implies outcomes.drop_last()[i] is Outside by {
            assert(outcomes.drop_last()[i] == outcomes[i]);
        }
        lemma_outside_everywhere(state, outcomes.drop_last());
        assert(outcomes.last() == outcomes[outcomes.len() - 1]);
    }
}

/// The answers of one generator that holds every point of a cycle and turns
/// each into the next, the last into the first.
pub open spec fn cycle_answers<P>(points: Seq<P>, keys: Seq<PointKey>) -> Seq<Outcome<P>> {
    Seq::new(
        points.len(),
        |i: int|
            if i + 1 < points.len() {
                Outcome::Image { point: points[i + 1], key: keys[i + 1] }
            } else {
                Outcome::Image { point: points[0], key: keys[0] }
            },
    )
}

/// The records of a cycle: each point with the one before it as its parent.
pub open spec fn cycle_records<P>(points: Seq<P>) -> Seq<OrbitRecord<P>> {
    Seq::new(
        points.len(),
        |i: int| OrbitRecord { point: points[i], parent: if i == 0 { 0usize } else { (i - 1) as usize } },
    )
}

proof fn lemma_cycle_prefix<P>(points: Seq<P>, keys: Seq<PointKey>, budget: nat, n: nat)
    requires
        points.len() == keys.len(),
        keys.no_duplicates(),
        1 <= n <= points.len() <= budget <= usize::MAX,
    ensures
        ({
            let start = OrbitState::start(points[0], keys[0], 1, budget);
            let end = start.run(cycle_answers(points, keys).take(n as int));
            &&& end.generators == 1
            &&& end.budget == budget
            &&& end.generator == 0
            &&& end.entry == n
            &&& n < points.len() ==> end.records == cycle_records(points).take(n + 1 as int) && end.keys
                == keys.take(n + 1 as int)
            &&& n == points.len() ==> end.records == cycle_records(points) && end.keys == keys
        }),
    decreases n,
{
    let start = OrbitState::start(points[0], keys[0], 1, budget);
    let all = cycle_answers(points, keys);
    let now = all.take(n as int);
    assert(now.drop_last() =~= all.take(n - 1));
    assert(now.last() == all[n - 1]);
    let before = start.run(all.take(n - 1));
    if n == 1 {
        assert(all.take(0).len() == 0);
        assert(before == start);
        assert(before.records =~= cycle_records(points).take(1));
        assert(before.keys =~= keys.take(1));
    } else {
        lemma_cycle_prefix(points, keys, budget, (n - 1) as nat);
    }
    assert(before.entry == n - 1);
    assert(before.records == cycle_records(points).take(n as int));
    assert(before.keys == keys.take(n as int));
    assert(before.active());
    let end = before.resolve(all[n - 1]);
    if n < points.len() {
        assert(!before.keys.contains(keys[n as int])) by {
            if before.keys.contains(keys[n as int]) {
                let i = choose|i: int| 0 <= i < before.keys.len() && before.keys[i] == keys[n as int];
                assert(keys[i] == keys[n as int]);
            }
        }
        assert(end.records =~= cycle_records(points).take(n + 1 as int));
        assert(end.keys =~= keys.take(n + 1 as int));
    } else {
        assert(before.keys[0] == keys[0]);
        assert(before.keys.contains(keys[0]));
        assert(cycle_records(points).take(n as int) =~= cycle_records(points));
        assert(keys.take(n as int) =~= keys);
    }
}

/// A single generator whose rotation runs through a cycle of points in
/// pairwise different buckets, all of which it holds, gives exactly the points
/// of the cycle: one record each, in the order of the rotation, and the search
/// ends with the orbit closed, provided the budget covers the cycle.
pub proof fn lemma_cycle_closes<P>(points: Seq<P>, keys: Seq<PointKey>, budget: nat)
    requires
        points.len() == keys.len(),
        keys.no_duplicates(),
        1 <= points.len() <= budget <= usize::MAX,
    ensures
        ({
            let end = OrbitState::start(points[0], keys[0], 1, budget).run(cycle_answers(points, keys));
            &&& end.records == cycle_records(points)
            &&& end.keys == keys
            &&& !end.active()
            &&& !end.truncated()
        }),
{
    lemma_cycle_prefix(points, keys, budget, points.len());
    let all = cycle_answers(points, keys);
    assert(all.take(points.len() as int) =~= all);
}

/// Whether the numeric kernel answers each question in one way only.
pub open spec fn single_valued<P, R, FC, FR, FK>(in_circle: FC, rotate: FR, bucket: FK) -> bool where
    FC: Fn(&Circle<P, R>, &P) -> bool,
    FR: Fn(&RotCircle<P, R>, &P) -> P,
    FK: Fn(&P) -> PointKey,
 {
    &&& forall|c: &Circle<P, R>, p: &P, a: bool, b: bool|
        call_ensures(in_circle, (c, p), a) && call_ensures(in_circle, (c, p), b) ==> a == b
    &&& forall|g: &RotCircle<P, R>, p: &P, a: P, b: P|
        call_ensures(rotate, (g, p), a) && call_ensures(rotate, (g, p), b) ==> a == b
    &&& forall|p: &P, a: PointKey, b: PointKey|
        call_ensures(bucket, (p,), a) && call_ensures(bucket, (p,), b) ==> a == b
}

/// A kernel that answers in one way only gives one outcome to a question.
pub proof fn lemma_one_answer<P, R, FC, FR, FK>(
    circle: RotCircle<P, R>,
    point: P,
    in_circle: FC,
    rotate: FR,
    bucket: FK,
    a: Outcome<P>,
    b: Outcome<P>,
) where FC: Fn(&Circle<P, R>, &P) -> bool, FR: Fn(&RotCircle<P, R>, &P) -> P, FK: Fn(&P) -> PointKey
    requires
        single_valued(in_circle, rotate, bucket),
        answers(circle, point, in_circle, rotate, bucket, a),
        answers(circle, point, in_circle, rotate, bucket, b),
    ensures
        a == b,
{
}

/// The answers to the first questions of a search are answers to a search of
/// their own, and every one of them met an open question.
pub proof fn lemma_follows_prefix<P, R, FC, FR, FK>(
    start: OrbitState<P>,
    circles: Seq<RotCircle<P, R>>,
    in_circle: FC,
    rotate: FR,
    bucket: FK,
    outcomes: Seq<Outcome<P>>,
    k: int,
) where FC: Fn(&Circle<P, R>, &P) -> bool, FR: Fn(&RotCircle<P, R>, &P) -> P, FK: Fn(&P) -> PointKey
    requires
        follows(start, circles, in_circle, rotate, bucket, outcomes),
        0 <= k <= outcomes.len(),
    ensures
        follows(start, circles, in_circle, rotate, bucket, outcomes.take(k)),
        k < outcomes.len() ==> {
            let before = start.run(outcomes.take(k));
            &&& before.active()
            &&& answers(
                circles[before.generator as int],
                before.records[before.entry as int].point,
                in_circle,
                rotate,
                bucket,
                outcomes[k],
            )
        },
    decreases outcomes.len(),
{
    if k == outcomes.len() {
        assert(outcomes.take(k) =~= outcomes);
    } else {
        assert(outcomes.drop_last().take(k) =~= outcomes.take(k));
        lemma_follows_prefix(start, circles, in_circle, rotate, bucket, outcomes.drop_last(), k);
        if k == outcomes.len() - 1 {
            assert(outcomes.take(k) =~= outcomes.drop_last());
        } else {
            assert(outcomes.drop_last()[k] == outcomes[k]);
        }
    }
}

proof fn lemma_same_prefix<P, R, FC, FR, FK>(
    start: OrbitState<P>,
    circles: Seq<RotCircle<P, R>>,
    in_circle: FC,
    rotate: FR,
    bucket: FK,
    a: Seq<Outcome<P>>,
    b: Seq<Outcome<P>>,
    k: int,
) where FC: Fn(&Circle<P, R>, &P) -> bool, FR: Fn(&RotCircle<P, R>, &P) -> P, FK: Fn(&P) -> PointKey
    requires
        single_valued(in_circle, rotate, bucket),
        follows(start, circles, in_circle, rotate, bucket, a),
        follows(start, circles, in_circle, rotate, bucket, b),
        0 <= k <= a.len(),
        k <= b.len(),
    ensures
        a.take(k) == b.take(k),
    decreases k,
{
    if k == 0 {
        assert(a.take(0) =~= b.take(0));
    } else {
        lemma_same_prefix(start, circles, in_circle, rotate, bucket, a, b, k - 1);
        lemma_follows_prefix(start, circles, in_circle, rotate, bucket, a, k - 1);
        lemma_follows_prefix(start, circles, in_circle, rotate, bucket, b, k - 1);
        let before = start.run(a.take(k - 1));
        lemma_one_answer(
            circles[before.generator as int],
            before.records[before.entry as int].point,
            in_circle,
            rotate,
            bucket,
            a[k - 1],
            b[k - 1],
        );
        assert(a.take(k) =~= a.take(k - 1).push(a[k - 1]));
        assert(b.take(k) =~= b.take(k - 1).push(b[k - 1]));
    }
}

/// With a numeric kernel that answers each question in one way only, a seed,
/// a list of generators and a budget have one expansion: the same records in
/// the same order.
pub proof fn lemma_expansion_is_determined<P, R, FC, FR, FK>(
    seed: P,
    circles: Seq<RotCircle<P, R>>,
    depth: u32,
    in_circle: FC,
    rotate: FR,
    bucket: FK,
    key_a: PointKey,
    outcomes_a: Seq<Outcome<P>>,
    end_a: OrbitState<P>,
    key_b: PointKey,
    outcomes_b: Seq<Outcome<P>>,
    end_b: OrbitState<P>,
) where FC: Fn(&Circle<P, R>, &P) -> bool, FR: Fn(&RotCircle<P, R>, &P) -> P, FK: Fn(&P) -> PointKey
    requires
        single_valued(in_circle, rotate, bucket),
        expands_to(seed, circles, depth, in_circle, rotate, bucket, key_a, outcomes_a, end_a),
        expands_to(seed, circles, depth, in_circle, rotate, bucket, key_b, outcomes_b, end_b),
    ensures
        end_a == end_b,
{
    let start = OrbitState::start(seed, key_a, circles.len(), depth as nat);
    let k = if outcomes_a.len() <= outcomes_b.len() {
        outcomes_a.len() as int
    } else {
        outcomes_b.len() as int
    };
    lemma_same_prefix(start, circles, in_circle, rotate, bucket, outcomes_a, outcomes_b, k);
    lemma_follows_prefix(start, circles, in_circle, rotate, bucket, outcomes_a, k);
    lemma_follows_prefix(start, circles, in_circle, rotate, bucket, outcomes_b, k);
    assert(outcomes_a.take(outcomes_a.len() as int) =~= outcomes_a);
    assert(outcomes_b.take(outcomes_b.len() as int) =~= outcomes_b);
}

/// Whether the numeric kernel finds `point` in none of the generators.
pub open spec fn held_by_none<P, R, FC>(circles: Seq<RotCircle<P, R>>, point: P, in_circle: FC) -> bool where
    FC: Fn(&Circle<P, R>, &P) -> bool,
 {
    forall|k: int, raw: bool|
        0 <= k < circles.len() && #[trigger] call_ensures(in_circle, (&circles[k].circle, &point), raw)
            ==> !circles[k].holds(raw)
}

proof fn lemma_lonely_prefix<P, R, FC, FR, FK>(
    start: OrbitState<P>,
    circles: Seq<RotCircle<P, R>>,
    in_circle: FC,
    rotate: FR,
    bucket: FK,
    outcomes: Seq<Outcome<P>>,
) where FC: Fn(&Circle<P, R>, &P) -> bool, FR: Fn(&RotCircle<P, R>, &P) -> P, FK: Fn(&P) -> PointKey
    requires
        start.records.len() == 1,
        start.keys.len() == 1,
        start.entry == 0,
        start.generators == circles.len(),
        held_by_none(circles, start.records[0].point, in_circle),
        follows(start, circles, in_circle, rotate, bucket, outcomes),
    ensures
        start.run(outcomes).records == start.records,
        start.run(outcomes).keys == start.keys,
        start.run(outcomes).generators == start.generators,
        start.run(outcomes).budget == start.budget,
        start.run(outcomes).entry <= 1,
    decreases outcomes.len(),
{
    if outcomes.len() > 0 {
        lemma_lonely_prefix(start, circles, in_circle, rotate, bucket, outcomes.drop_last());
    }
}

/// A seed that belongs to no generator stays alone: its expansion holds the
/// seed and nothing else, whatever the number of generators and the budget.
pub proof fn lemma_seed_held_by_none<P, R, FC, FR, FK>(
    seed: P,
    circles: Seq<RotCircle<P, R>>,
    depth: u32,
    in_circle: FC,
    rotate: FR,
    bucket: FK,
    key: PointKey,
    outcomes: Seq<Outcome<P>>,
    end: OrbitState<P>,
) where FC: Fn(&Circle<P, R>, &P) -> bool, FR: Fn(&RotCircle<P, R>, &P) -> P, FK: Fn(&P) -> PointKey
    requires
        held_by_none(circles, seed, in_circle),
        expands_to(seed, circles, depth, in_circle, rotate, bucket, key, outcomes, end),
    ensures
        end.records == seq![OrbitRecord { point: seed, parent: 0 }],
        end.truncated() == (depth == 0),
{
    let start = OrbitState::start(seed, key, circles.len(), depth as nat);
    lemma_lonely_prefix(start, circles, in_circle, rotate, bucket, outcomes);
}

/// Whether the numeric kernel runs the rotation of `circle` through the cycle
/// `points`: it finds each point in the generator, turns it into the next one,
/// the last into the first, and puts the points into the pairwise different
/// buckets `keys`.
pub open spec fn cycles<P, R, FC, FR, FK>(
    circle: RotCircle<P, R>,
    points: Seq<P>,
    keys: Seq<PointKey>,
    in_circle: FC,
    rotate: FR,
    bucket: FK,
) -> bool where
    FC: Fn(&Circle<P, R>, &P) -> bool,
    FR: Fn(&RotCircle<P, R>, &P) -> P,
    FK: Fn(&P) -> PointKey,
 {
    &&& points.len() == keys.len()
    &&& points.len() >= 1
    &&& keys.no_duplicates()
    &&& forall|i: int, raw: bool|
        0 <= i < points.len() && #[trigger] call_ensures(in_circle, (&circle.circle, &points[i]), raw)
            ==> circle.holds(raw)
    &&& forall|i: int, image: P|
        0 <= i < points.len() && #[trigger] call_ensures(rotate, (&circle, &points[i]), image) ==> image
            == points[if i + 1 < points.len() {
            i + 1
        } else {
            0
        }]
    &&& forall|i: int, key: PointKey|
        0 <= i < points.len() && #[trigger] call_ensures(bucket, (&points[i],), key) ==> key == keys[i]
}

proof fn lemma_cycle_followed<P, R, FC, FR, FK>(
    circles: Seq<RotCircle<P, R>>,
    points: Seq<P>,
    keys: Seq<PointKey>,
    budget: nat,
    in_circle: FC,
    rotate: FR,
    bucket: FK,
    outcomes: Seq<Outcome<P>>,
    k: int,
) where FC: Fn(&Circle<P, R>, &P) -> bool, FR: Fn(&RotCircle<P, R>, &P) -> P, FK: Fn(&P) -> PointKey
    requires
        circles.len() == 1,
        cycles(circles[0], points, keys, in_circle, rotate, bucket),
        points.len() <= budget <= usize::MAX,
        follows(
            OrbitState::start(points[0], keys[0], 1, budget),
            circles,
            in_circle,
            rotate,
            bucket,
            outcomes,
        ),
        0 <= k <= outcomes.len(),
        k <= points.len(),
    ensures
        outcomes.take(k) == cycle_answers(points, keys).take(k),
    decreases k,
{
    let start = OrbitState::start(points[0], keys[0], 1, budget);
    let all = cycle_answers(points, keys);
    if k == 0 {
        assert(outcomes.take(0) =~= all.take(0));
    } else {
        lemma_cycle_followed(circles, points, keys, budget, in_circle, rotate, bucket, outcomes, k - 1);
        lemma_follows_prefix(start, circles, in_circle, rotate, bucket, outcomes, k - 1);
        let before = start.run(outcomes.take(k - 1));
        if k == 1 {
            assert(outcomes.take(0).len() == 0);
            assert(before == start);
        } else {
            lemma_cycle_prefix(points, keys, budget, (k - 1) as nat);
        }
        assert(before.generator == 0);
        assert(before.entry == k - 1);
        assert(before.records[k - 1].point == points[k - 1]);
        assert(outcomes[k - 1] == all[k - 1]);
        assert(outcomes.take(k) =~= outcomes.take(k - 1).push(outcomes[k - 1]));
        assert(all.take(k) =~= all.take(k - 1).push(all[k - 1]));
    }
}

/// The orbit of a seed under a single generator whose rotation runs through a
/// cycle: the expansion holds exactly the points of the cycle, one record
/// each, in the order of the rotation, and is not cut short when the budget
/// covers the cycle.
pub proof fn lemma_single_generator_orbit<P, R, FC, FR, FK>(
    circles: Seq<RotCircle<P, R>>,
    points: Seq<P>,
    keys: Seq<PointKey>,
    depth: u32,
    in_circle: FC,
    rotate: FR,
    bucket: FK,
    key: PointKey,
    outcomes: Seq<Outcome<P>>,
    end: OrbitState<P>,
) where FC: Fn(&Circle<P, R>, &P) -> bool, FR: Fn(&RotCircle<P, R>, &P) -> P, FK: Fn(&P) -> PointKey
    requires
        circles.len() == 1,
        cycles(circles[0], points, keys, in_circle, rotate, bucket),
        points.len() <= depth,
        expands_to(points[0], circles, depth, in_circle, rotate, bucket, key, outcomes, end),
    ensures
        end.records == cycle_records(points),
        end.keys == keys,
        !end.truncated(),
{
    let budget = depth as nat;
    let start = OrbitState::start(points[0], keys[0], 1, budget);
    let all = cycle_answers(points, keys);
    let m = points.len() as int;
    let k = if outcomes.len() <= m {
        outcomes.len() as int
    } else {
        m
    };
    lemma_cycle_followed(circles, points, keys, budget, in_circle, rotate, bucket, outcomes, k);
    lemma_follows_prefix(start, circles, in_circle, rotate, bucket, outcomes, k);
    lemma_cycle_prefix(points, keys, budget, k as nat);
    assert(outcomes.take(outcomes.len() as int) =~= outcomes);
    lemma_cycle_closes(points, keys, budget);
    assert(all.take(m) =~= all);
}

/// Whether record `i` of `state` came from its parent: some generator holds
/// the parent's point and turns it into the point of the record, in the
/// record's bucket.
pub open spec fn comes_from_parent<P, R, FC, FR, FK>(
    circles: Seq<RotCircle<P, R>>,
    in_circle: FC,
    rotate: FR,
    bucket: FK,
    state: OrbitState<P>,
    i: int,
) -> bool where
    FC: Fn(&Circle<P, R>, &P) -> bool,
    FR: Fn(&RotCircle<P, R>, &P) -> P,
    FK: Fn(&P) -> PointKey,
 {
    exists|j: int|
        0 <= j < circles.len() && #[trigger] answers(
            circles[j],
            state.records[state.records[i].parent as int].point,
            in_circle,
            rotate,
            bucket,
            Outcome::Image { point: state.records[i].point, key: state.keys[i] },
        )
}

/// Whether the orbit in `state` is closed at record `i` under generator `j`:
/// the numeric kernel was asked what the generator does to the record's point,
/// and if it turns the point, the image lies in the bucket of a record.
pub open spec fn closed_at<P, R, FC, FR, FK>(
    circles: Seq<RotCircle<P, R>>,
    in_circle: FC,
    rotate: FR,
    bucket: FK,
    state: OrbitState<P>,
    i: int,
    j: int,
) -> bool where
    FC: Fn(&Circle<P, R>, &P) -> bool,
    FR: Fn(&RotCircle<P, R>, &P) -> P,
    FK: Fn(&P) -> PointKey,
 {
    exists|outcome: Outcome<P>| #[trigger]
        answers(circles[j], state.records[i].point, in_circle, rotate, bucket, outcome) && (outcome matches Outcome::Image {
            key,
            ..
        } ==> state.keys.contains(key))
}

/// A search whose questions were all answered has asked as many questions as
/// lie before its open one: all generators on every record before the one
/// under expansion, and the generators before the next one on that record.
pub proof fn lemma_questions_counted<P, R, FC, FR, FK>(
    start: OrbitState<P>,
    circles: Seq<RotCircle<P, R>>,
    in_circle: FC,
    rotate: FR,
    bucket: FK,
    outcomes: Seq<Outcome<P>>,
) where FC: Fn(&Circle<P, R>, &P) -> bool, FR: Fn(&RotCircle<P, R>, &P) -> P, FK: Fn(&P) -> PointKey
    requires
        start.wf(),
        start.entry == 0,
        start.generator == 0,
        follows(start, circles, in_circle, rotate, bucket, outcomes),
    ensures
        start.run(outcomes).entry * start.generators + start.run(outcomes).generator == outcomes.len(),
    decreases outcomes.len(),
{
    let n = start.generators as int;
    if outcomes.len() == 0 {
        assert(0 * n + 0 == 0);
    } else {
        lemma_questions_counted(start, circles, in_circle, rotate, bucket, outcomes.drop_last());
        lemma_run_wf(start, outcomes.drop_last());
        lemma_run_grows(start, outcomes.drop_last());
        let before = start.run(outcomes.drop_last());
        let e = before.entry as int;
        assert((e + 1) * n + 0 == e * n + n) by (nonlinear_arith);
    }
}

/// Every record but the seed came from its parent, whatever the answers of
/// the numeric kernel were.
pub proof fn lemma_records_come_from_parents<P, R, FC, FR, FK>(
    start: OrbitState<P>,
    circles: Seq<RotCircle<P, R>>,
    in_circle: FC,
    rotate: FR,
    bucket: FK,
    outcomes: Seq<Outcome<P>>,
) where FC: Fn(&Circle<P, R>, &P) -> bool, FR: Fn(&RotCircle<P, R>, &P) -> P, FK: Fn(&P) -> PointKey
    requires
        start.wf(),
        start.records.len() == 1,
        start.generators == circles.len(),
        follows(start, circles, in_circle, rotate, bucket, outcomes),
    ensures
        forall|i: int|
            1 <= i < start.run(outcomes).records.len() ==> #[trigger] comes_from_parent(
                circles,
                in_circle,
                rotate,
                bucket,
                start.run(outcomes),
                i,
            ),
    decreases outcomes.len(),
{
    if outcomes.len() > 0 {
        let before = start.run(outcomes.drop_last());
        let end = start.run(outcomes);
        lemma_records_come_from_parents(start, circles, in_circle, rotate, bucket, outcomes.drop_last());
        lemma_run_wf(start, outcomes.drop_last());
        lemma_run_grows(start, outcomes.drop_last());
        lemma_resolve_wf(before, outcomes.last());
        assert forall|i: int| 1 <= i < end.records.len() implies #[trigger] comes_from_parent(
            circles,
            in_circle,
            rotate,
            bucket,
            end,
            i,
        ) by {
            if i < before.records.len() {
                assert(comes_from_parent(circles, in_circle, rotate, bucket, before, i));
                let j = choose|j: int|
                    0 <= j < circles.len() && #[trigger] answers(
                        circles[j],
                        before.records[before.records[i].parent as int].point,
                        in_circle,
                        rotate,
                        bucket,
                        Outcome::Image { point: before.records[i].point, key: before.keys[i] },
                    );
                assert(end.records[i] == before.records[i]);
                assert(end.keys[i] == before.keys[i]);
                assert(end.records[end.records[i].parent as int] == before.records[before.records[i].parent as int]);
                assert(answers(
                    circles[j],
                    end.records[end.records[i].parent as int].point,
                    in_circle,
                    rotate,
                    bucket,
                    Outcome::Image { point: end.records[i].point, key: end.keys[i] },
                ));
            } else {
                let j = before.generator as int;
                assert(end.records[before.entry as int] == before.records[before.entry as int]);
                assert(answers(
                    circles[j],
                    end.records[end.records[i].parent as int].point,
                    in_circle,
                    rotate,
                    bucket,
                    Outcome::Image { point: end.records[i].point, key: end.keys[i] },
                ));
            }
        }
    }
}

/// The orbit is closed at every question that was answered: whatever a
/// generator made of a record's point lies in the bucket of a record.
pub proof fn lemma_answered_questions_are_closed<P, R, FC, FR, FK>(
    start: OrbitState<P>,
    circles: Seq<RotCircle<P, R>>,
    in_circle: FC,
    rotate: FR,
    bucket: FK,
    outcomes: Seq<Outcome<P>>,
) where FC: Fn(&Circle<P, R>, &P) -> bool, FR: Fn(&RotCircle<P, R>, &P) -> P, FK: Fn(&P) -> PointKey
    requires
        start.wf(),
        start.entry == 0,
        start.generator == 0,
        start.generators == circles.len(),
        follows(start, circles, in_circle, rotate, bucket, outcomes),
    ensures
        forall|i: int, j: int|
            0 <= i && 0 <= j < circles.len() && i * circles.len() + j < outcomes.len() ==> #[trigger] closed_at(
                circles,
                in_circle,
                rotate,
                bucket,
                start.run(outcomes),
                i,
                j,
            ),
    decreases outcomes.len(),
{
    let n = circles.len() as int;
    if outcomes.len() > 0 {
        let earlier = outcomes.drop_last();
        let before = start.run(earlier);
        let end = start.run(outcomes);
        lemma_answered_questions_are_closed(start, circles, in_circle, rotate, bucket, earlier);
        lemma_questions_counted(start, circles, in_circle, rotate, bucket, earlier);
        lemma_run_wf(start, earlier);
        lemma_run_grows(start, earlier);
        lemma_resolve_wf(before, outcomes.last());
        let e = before.entry as int;
        let g = before.generator as int;
        assert forall|i: int, j: int|
            0 <= i && 0 <= j < n && i * n + j < outcomes.len() implies #[trigger] closed_at(
            circles,
            in_circle,
            rotate,
            bucket,
            end,
            i,
            j,
        ) by {
            assert(i <= e) by (nonlinear_arith)
                requires
                    0 <= i,
                    0 <= j < n,
                    0 <= g < n,
                    i * n + j <= e * n + g,
            ;
            assert(end.records[i] == before.records[i]);
            if i * n + j < earlier.len() {
                assert(closed_at(circles, in_circle, rotate, bucket, before, i, j));
                let outcome = choose|outcome: Outcome<P>| #[trigger]
                    answers(circles[j], before.records[i].point, in_circle, rotate, bucket, outcome) && (
                    outcome matches Outcome::Image { key, .. } ==> before.keys.contains(key));
                if outcome is Image {
                    let key = outcome->key;
                    let at = choose|at: int| 0 <= at < before.keys.len() && before.keys[at] == key;
                    assert(end.keys[at] == key);
                }
                assert(answers(circles[j], end.records[i].point, in_circle, rotate, bucket, outcome));
            } else {
                assert(i == e && j == g) by (nonlinear_arith)
                    requires
                        0 <= i <= e,
                        0 <= j < n,
                        0 <= g < n,
                        i * n + j == e * n + g,
                ;
                let outcome = outcomes.last();
                if outcome is Image {
                    let key = outcome->key;
                    if before.keys.contains(key) {
                        let at = choose|at: int| 0 <= at < before.keys.len() && before.keys[at] == key;
                        assert(end.keys[at] == key);
                    } else {
                        assert(end.keys[before.keys.len() as int] == key);
                    }
                }
                assert(answers(circles[j], end.records[i].point, in_circle, rotate, bucket, outcome));
            }
        }
    }
}

/// What an expansion finds is the orbit, as far as the budget reaches.
///
/// Every record but the seed came from its parent by a generator that holds
/// the parent's point.  Every record that was expanded is closed under every
/// generator: wherever a generator turned its point, the image lies in the
/// bucket of a record.  Where the expansion was not cut short, every record
/// was expanded, so the orbit is closed.
pub proof fn lemma_expansion_is_the_orbit<P, R, FC, FR, FK>(
    seed: P,
    circles: Seq<RotCircle<P, R>>,
    depth: u32,
    in_circle: FC,
    rotate: FR,
    bucket: FK,
    key: PointKey,
    outcomes: Seq<Outcome<P>>,
    end: OrbitState<P>,
) where FC: Fn(&Circle<P, R>, &P) -> bool, FR: Fn(&RotCircle<P, R>, &P) -> P, FK: Fn(&P) -> PointKey
    requires
        circles.len() >= 1,
        expands_to(seed, circles, depth, in_circle, rotate, bucket, key, outcomes, end),
    ensures
        end.wf(),
        forall|i: int|
            1 <= i < end.records.len() ==> #[trigger] comes_from_parent(
                circles,
                in_circle,
                rotate,
                bucket,
                end,
                i,
            ),
        forall|i: int, j: int|
            0 <= i < end.entry && 0 <= j < circles.len() ==> #[trigger] closed_at(
                circles,
                in_circle,
                rotate,
                bucket,
                end,
                i,
                j,
            ),
        !end.truncated() ==> end.entry == end.records.len(),
        end.truncated() ==> end.entry == depth,
{
    let start = OrbitState::start(seed, key, circles.len(), depth as nat);
    let n = circles.len() as int;
    lemma_run_wf(start, outcomes);
    lemma_run_grows(start, outcomes);
    lemma_records_come_from_parents(start, circles, in_circle, rotate, bucket, outcomes);
    lemma_answered_questions_are_closed(start, circles, in_circle, rotate, bucket, outcomes);
    lemma_questions_counted(start, circles, in_circle, rotate, bucket, outcomes);
    let e = end.entry as int;
    let g = end.generator as int;
    assert forall|i: int, j: int| 0 <= i < end.entry && 0 <= j < circles.len() implies #[trigger] closed_at(
        circles,
        in_circle,
        rotate,
        bucket,
        end,
        i,
        j,
    ) by {
        assert(i * n + j < e * n + g) by (nonlinear_arith)
            requires
                0 <= i < e,
                0 <= j < n,
                0 <= g,
        ;
    }
}

/// The budget bounds the work: the numeric kernel is asked about each
/// generator on `depth` records at most, and every answer brings one record
/// at most.
pub proof fn lemma_work_is_bounded<P, R, FC, FR, FK>(
    seed: P,
    circles: Seq<RotCircle<P, R>>,
    depth: u32,
    in_circle: FC,
    rotate: FR,
    bucket: FK,
    key: PointKey,
    outcomes: Seq<Outcome<P>>,
    end: OrbitState<P>,
) where FC: Fn(&Circle<P, R>, &P) -> bool, FR: Fn(&RotCircle<P, R>, &P) -> P, FK: Fn(&P) -> PointKey
    requires
        circles.len() >= 1,
        expands_to(seed, circles, depth, in_circle, rotate, bucket, key, outcomes, end),
    ensures
        outcomes.len() <= depth * circles.len(),
        end.records.len() <= 1 + outcomes.len(),
{
    let start = OrbitState::start(seed, key, circles.len(), depth as nat);
    let n = circles.len() as int;
    lemma_run_wf(start, outcomes);
    lemma_run_grows(start, outcomes);
    lemma_questions_counted(start, circles, in_circle, rotate, bucket, outcomes);
    lemma_records_counted(start, outcomes);
    let e = end.entry as int;
    let g = end.generator as int;
    let d = depth as int;
    if e < d {
        assert(e * n + g <= d * n) by (nonlinear_arith)
            requires
                0 <= e < d,
                0 <= g < n,
        ;
    }
}

proof fn lemma_records_counted<P>(start: OrbitState<P>, outcomes: Seq<Outcome<P>>)
    ensures
        start.run(outcomes).records.len() <= start.records.len() + outcomes.len(),
    decreases outcomes.len(),
{
    if outcomes.len() > 0 {
        lemma_records_counted(start, outcomes.drop_last());
    }
}

/// How many generators were applied to the seed to reach record `i`.
pub open spec fn level<P>(records: Seq<OrbitRecord<P>>, i: int) -> nat
    decreases i,
{
    if 0 < i < records.len() && records[i].parent < i {
        level(records, records[i].parent as int) + 1
    } else {
        0
    }
}

/// The records stand in breadth-first order: a record that was found later
/// lies no fewer steps from the seed.
pub proof fn lemma_breadth_first<P>(state: OrbitState<P>, i: int, j: int)
    requires
        state.wf(),
        0 <= i <= j < state.records.len(),
    ensures
        level(state.records, i) <= level(state.records, j),
    decreases j,
{
    if i > 0 {
        lemma_breadth_first(state, state.records[i].parent as int, state.records[j].parent as int);
    }
}

} // verus!
