//! What the operations produce, stated by their results: replay by time stops
//! at the target time, a branch resumes the generator from its checkpoint,
//! effects change exactly what they say, and experiments set up the
//! relationship they describe.

use vstd::prelude::*;
use crate::binary32::{binary32_sum, clamp_unit_bits, Binary32};
use crate::effect::StateEffectView;
use crate::event::{person_id_debug, EventKindView, EventView};
use crate::experiment::{initial_relationship, instantiated, with_people, ExperimentPersonView, RelationshipSetup};
use crate::ids::PersonId;
use crate::person::{MemoryView, PersonView};
use crate::person_map::{key_index, lemma_key_index, lemma_lookup_store, lookup, store};
use crate::replay::{
    base_snapshot, captured_by, fork_cursor, lemma_base_snapshot_bounds, replay_until, replayed_at,
    replay_all, replayed_through, taken_before_cursor, taken_by, RunView, SnapshotView,
};
use crate::rng::seeded_state;
use crate::simulation::{
    branch_of, broken_promise_effects, broken_promise_text, checkpointed, emitted, first_at_cursor,
    lemma_first_at_cursor, no_replay_base_message, prior_affect, prior_confidence, seeded_simulation, SimulationView,
};
use crate::time::SimTime;
use crate::world::{
    belief_index, changed_relationship, effect_subject, id_after, world_after_replay, lemma_belief_index, lemma_effects_keep_history,
    person_after_effect, world_after_effect, world_after_effects, WorldView,
};

verus! {

/// The effects of `es`, event after event, in order.
pub open spec fn effects_of(es: Seq<EventView>) -> Seq<StateEffectView>
    decreases es.len(),
{
    if es.len() == 0 {
        Seq::empty()
    } else {
        es[0].effects + effects_of(es.drop_first())
    }
}

/// Applying two lists of effects is applying the first, then the second.
pub proof fn lemma_effects_concat(w: WorldView, a: Seq<StateEffectView>, b: Seq<StateEffectView>)
    ensures
        world_after_effects(w, a + b) == world_after_effects(world_after_effects(w, a), b),
    decreases b.len(),
{
    if b.len() == 0 {
        assert(a + b =~= a);
    } else {
        assert((a + b).drop_last() =~= a + b.drop_last());
        assert((a + b).last() == b.last());
        lemma_effects_concat(w, a, b.drop_last());
    }
}

/// Applying effects up to the target time applies the effects of the longest
/// run of events from the start that are no later than the target.
proof fn lemma_until_prefix(w: WorldView, xs: Seq<EventView>, t: SimTime) -> (k: int)
    ensures
        0 <= k <= xs.len(),
        forall|j: int| 0 <= j < k ==> (#[trigger] xs[j]).timestamp.0 <= t.0,
        k < xs.len() ==> xs[k].timestamp.0 > t.0,
        replay_until(w, xs, t) == world_after_effects(w, effects_of(xs.take(k))),
    decreases xs.len(),
{
    if xs.len() == 0 || xs[0].timestamp.0 > t.0 {
        assert(xs.take(0) =~= Seq::<EventView>::empty());
        assert(world_after_effects(w, Seq::<StateEffectView>::empty()) == w);
        0
    } else {
        let w1 = world_after_effects(w, xs[0].effects);
        let rest = xs.drop_first();
        let k1 = lemma_until_prefix(w1, rest, t);
        let k = k1 + 1;
        assert forall|j: int| 0 <= j < k implies (#[trigger] xs[j]).timestamp.0 <= t.0 by {
            if j > 0 {
                assert(xs[j] == rest[j - 1]);
            }
        }
        if k < xs.len() {
            assert(xs[k] == rest[k1]);
        }
        assert(xs.take(k)[0] == xs[0]);
        assert(xs.take(k).drop_first() =~= rest.take(k1));
        assert(effects_of(xs.take(k)) == xs[0].effects + effects_of(rest.take(k1)));
        lemma_effects_concat(w, xs[0].effects, effects_of(rest.take(k1)));
        k
    }
}

/// The snapshot a reconstruction starts from is an eligible one with the
/// greatest event cursor, the latest of those on ties; there is none exactly
/// when no snapshot is eligible.
proof fn lemma_base_is_greatest(snaps: Seq<SnapshotView>, eligible: spec_fn(SnapshotView) -> bool)
    ensures
        match base_snapshot(snaps, eligible) {
            Some(b) => 0 <= b < snaps.len() && eligible(snaps[b]) && (forall|j: int|
                0 <= j < snaps.len() && eligible(#[trigger] snaps[j]) ==> snaps[j].event_cursor
                    <= snaps[b].event_cursor) && (forall|j: int|
                b < j < snaps.len() && eligible(#[trigger] snaps[j]) ==> snaps[j].event_cursor
                    < snaps[b].event_cursor),
            None => forall|j: int| 0 <= j < snaps.len() ==> !eligible(#[trigger] snaps[j]),
        },
    decreases snaps.len(),
{
    if snaps.len() > 0 {
        let d = snaps.drop_last();
        lemma_base_is_greatest(d, eligible);
        assert forall|j: int| 0 <= j < d.len() implies d[j] == snaps[j] by {}
    }
}

/// `w` is what replaying `r` to time `t` should give when starting from
/// snapshot `b` and applying the events up to position `k`: `b` is taken at or
/// before `t` and has the greatest event cursor among such snapshots (the
/// latest of those on ties); the events from its cursor up to `k` are no later
/// than `t` and the one at `k`, if any, is later; and `w` is `b`'s world with
/// the effects of those events applied in order and the clock set to `t`.
pub open spec fn replays_from(r: RunView, t: SimTime, b: int, k: int, w: WorldView) -> bool {
    let snap = r.snapshots[b];
    let es = r.events;
    let start = if snap.event_cursor <= es.len() { snap.event_cursor as int } else { es.len() as int };
    &&& 0 <= b < r.snapshots.len()
    &&& snap.time.0 <= t.0
    &&& forall|j: int|
        0 <= j < r.snapshots.len() && (#[trigger] r.snapshots[j]).time.0 <= t.0 ==> r.snapshots[j].event_cursor
            <= snap.event_cursor && (j > b ==> r.snapshots[j].event_cursor < snap.event_cursor)
    &&& start <= k <= es.len()
    &&& forall|j: int| start <= j < k ==> (#[trigger] es[j]).timestamp.0 <= t.0
    &&& k < es.len() ==> es[k].timestamp.0 > t.0
    &&& w == WorldView { time: t, ..world_after_effects(snap.world, effects_of(es.subrange(start, k))) }
}

/// Replaying to time `t` starts from the snapshot taken at or before `t` with
/// the greatest event cursor, applies to its world the effects of exactly the
/// events after its cursor up to the first one later than `t` (no effect of a
/// later event), and sets the clock to `t`; without such a snapshot there is no
/// replay. In particular, when every event after that snapshot is later than
/// `t`, the replayed people are the snapshot's.
pub proof fn lemma_replay_stops_at_target(r: RunView, t: SimTime)
    ensures
        (replayed_at(r, t) is None) == (forall|j: int| 0 <= j < r.snapshots.len() ==> (
        #[trigger] r.snapshots[j]).time.0 > t.0),
        replayed_at(r, t) matches Some(w) ==> exists|b: int, k: int| #[trigger] replays_from(r, t, b, k, w),
        forall|b: int, k: int, w: WorldView|
            #[trigger] replays_from(r, t, b, k, w) && (forall|j: int|
                r.snapshots[b].event_cursor <= j < r.events.len() ==> (#[trigger] r.events[j]).timestamp.0 > t.0)
                ==> w.people == r.snapshots[b].world.people,
{
    lemma_base_is_greatest(r.snapshots, taken_by(t));
    match base_snapshot(r.snapshots, taken_by(t)) {
        None => {},
        Some(b) => {
            let snap = r.snapshots[b];
            let es = r.events;
            let start = if snap.event_cursor <= es.len() { snap.event_cursor as int } else { es.len() as int };
            let xs = es.skip(start);
            let k0 = lemma_until_prefix(snap.world, xs, t);
            let k = start + k0;
            assert(xs.take(k0) =~= es.subrange(start, k));
            assert forall|j: int| start <= j < k implies (#[trigger] es[j]).timestamp.0 <= t.0 by {
                assert(es[j] == xs[j - start]);
            }
            if k < es.len() {
                assert(es[k] == xs[k0]);
            }
            assert(replays_from(r, t, b, k, replayed_at(r, t)->0));
        },
    }
    assert forall|b: int, k: int, w: WorldView|
        #[trigger] replays_from(r, t, b, k, w) && (forall|j: int|
            r.snapshots[b].event_cursor <= j < r.events.len() ==> (#[trigger] r.events[j]).timestamp.0 > t.0)
            implies w.people == r.snapshots[b].world.people by {
        let es = r.events;
        let snap = r.snapshots[b];
        let start = if snap.event_cursor <= es.len() { snap.event_cursor as int } else { es.len() as int };
        if k > start {
            assert(es[start].timestamp.0 <= t.0);
        }
        assert(es.subrange(start, k) =~= Seq::<EventView>::empty());
        assert(effects_of(es.subrange(start, k)) =~= Seq::<StateEffectView>::empty());
    }
}

/// The people after some effects depend only on the people before them.
proof fn lemma_effects_see_only_people(w1: WorldView, w2: WorldView, es: Seq<StateEffectView>)
    requires
        w1.people == w2.people,
    ensures
        world_after_effects(w1, es).people == world_after_effects(w2, es).people,
    decreases es.len(),
{
    if es.len() > 0 {
        lemma_effects_see_only_people(w1, w2, es.drop_last());
    }
}

/// Replaying events on a world applies their effects to its people, appends
/// them to its event list, and leaves the clock and the id counter after the
/// last of them.
proof fn lemma_replay_all_outcome(w: WorldView, es: Seq<EventView>)
    ensures
        replay_all(w, es) == (WorldView {
            time: if es.len() > 0 { es.last().timestamp } else { w.time },
            people: world_after_effects(w, effects_of(es)).people,
            locations: w.locations,
            events: w.events + es,
            next_event_id: if es.len() > 0 { id_after(es.last().id) } else { w.next_event_id },
        }),
    decreases es.len(),
{
    if es.len() > 0 {
        let e = es[0];
        let rest = es.drop_first();
        let applied = world_after_effects(w, e.effects);
        let w1 = world_after_replay(w, e);
        lemma_effects_keep_history(w, e.effects);
        lemma_replay_all_outcome(w1, rest);
        lemma_effects_see_only_people(w1, applied, effects_of(rest));
        lemma_effects_concat(w, e.effects, effects_of(rest));
        assert(w.events + es =~= w1.events + rest);
        if rest.len() > 0 {
            assert(rest.last() == es.last());
        }
    } else {
        assert(w.events + es =~= w.events);
        assert(world_after_effects(w, effects_of(es)) == w);
    }
}

/// `w` is what replaying `r` through event cursor `c` should give when
/// starting from snapshot `b`: `b` is taken at or before `c` and has the
/// greatest cursor among such snapshots (the latest of those on ties), and `w`
/// is `b`'s world with the events from its cursor up to `c` replayed: their
/// effects applied to the people, the events appended, and the clock and id
/// counter following the last of them.
pub open spec fn replays_through_from(r: RunView, c: int, b: int, w: WorldView) -> bool {
    let snap = r.snapshots[b];
    let es = r.events;
    let bc = snap.event_cursor as int;
    let tail = es.subrange(bc, c);
    &&& 0 <= b < r.snapshots.len()
    &&& bc <= c
    &&& forall|j: int|
        0 <= j < r.snapshots.len() && (#[trigger] r.snapshots[j]).event_cursor <= c ==> r.snapshots[j].event_cursor
            <= bc && (j > b ==> r.snapshots[j].event_cursor < bc)
    &&& w == (WorldView {
        time: if bc < c { es[c - 1].timestamp } else { snap.world.time },
        people: world_after_effects(snap.world, effects_of(tail)).people,
        locations: snap.world.locations,
        events: snap.world.events + tail,
        next_event_id: if bc < c { id_after(es[c - 1].id) } else { snap.world.next_event_id },
    })
}

/// Reconstructing by cursor replays, on the world of the snapshot with the
/// greatest cursor at or before it, exactly the recorded events between that
/// snapshot's cursor and the requested one (at most all events, see
/// `fork_cursor`); without such
/// a snapshot there is no reconstruction.
pub proof fn lemma_replay_through_cursor(r: RunView, cursor: int)
    requires
        0 <= cursor,
    ensures
        (replayed_through(r, cursor) is None) == (forall|j: int|
            0 <= j < r.snapshots.len() ==> (#[trigger] r.snapshots[j]).event_cursor > fork_cursor(r, cursor)),
        replayed_through(r, cursor) matches Some(w) ==> exists|b: int|
            #[trigger] replays_through_from(r, fork_cursor(r, cursor), b, w),
{
    let c = fork_cursor(r, cursor);
    lemma_base_is_greatest(r.snapshots, taken_before_cursor(c));
    match base_snapshot(r.snapshots, taken_before_cursor(c)) {
        None => {},
        Some(b) => {
            let snap = r.snapshots[b];
            let tail = r.events.subrange(snap.event_cursor as int, c);
            lemma_replay_all_outcome(snap.world, tail);
            if tail.len() > 0 {
                assert(tail.last() == r.events[c - 1]);
            }
            assert(forall|j: int|
                0 <= j < r.snapshots.len() && (#[trigger] r.snapshots[j]).event_cursor <= c ==> taken_before_cursor(c)(
                    r.snapshots[j],
                ));
            assert(replays_through_from(r, c, b, replayed_through(r, cursor)->0));
        },
    }
}

/// Among the snapshots taken at or before cursor `c`, the first one taken
/// exactly at `c` is the first such snapshot of the whole list.
proof fn lemma_first_at_cursor_captured(snaps: Seq<SnapshotView>, c: int)
    ensures
        match first_at_cursor(snaps.filter(captured_by(c)), c) {
            Some(i) => exists|k: int|
                0 <= k < snaps.len() && snaps[k].event_cursor == c && (forall|j: int|
                    0 <= j < k ==> (#[trigger] snaps[j]).event_cursor != c) && 0 <= i < snaps.filter(
                    captured_by(c),
                ).len() && snaps.filter(captured_by(c))[i] == snaps[k],
            None => forall|j: int| 0 <= j < snaps.len() ==> (#[trigger] snaps[j]).event_cursor != c,
        },
    decreases snaps.len(),
{
    reveal(Seq::filter);
    if snaps.len() > 0 {
        let d = snaps.drop_last();
        let last = snaps.last();
        let f = d.filter(captured_by(c));
        lemma_first_at_cursor_captured(d, c);
        lemma_first_at_cursor(f, c);
        assert forall|j: int| 0 <= j < d.len() implies d[j] == snaps[j] by {}
        if captured_by(c)(last) {
            let g = f.push(last);
            assert(snaps.filter(captured_by(c)) == g);
            assert(g.drop_last() =~= f);
            match first_at_cursor(f, c) {
                Some(i) => {
                    assert(first_at_cursor(g, c) == Some(i));
                    assert(g[i] == f[i]);
                },
                None => {
                    if last.event_cursor == c {
                        assert(first_at_cursor(g, c) == Some(f.len() as int));
                        assert(g[f.len() as int] == snaps[snaps.len() - 1]);
                    }
                },
            }
        } else {
            assert(snaps.filter(captured_by(c)) == f);
        }
    } else {
        assert(snaps.filter(captured_by(c)) =~= Seq::<SnapshotView>::empty());
    }
}

/// A branch resumes the random trajectory: its generator state is the one
/// recorded by the first snapshot the parent took exactly at the fork cursor
/// (a zero state replaced as for a zero seed), not a restart from the seed.
pub proof fn lemma_branch_resumes_generator(s: SimulationView, branch_id: Seq<char>, event_cursor: int)
    ensures
        branch_of(s, branch_id, event_cursor) matches Ok(child) ==> exists|k: int|
            0 <= k < s.run.snapshots.len() && s.run.snapshots[k].event_cursor == fork_cursor(s.run, event_cursor)
                && (forall|j: int|
                0 <= j < k ==> (#[trigger] s.run.snapshots[j]).event_cursor != fork_cursor(s.run, event_cursor))
                && child.rng_state == seeded_state(s.run.snapshots[k].rng_state),
{
    let c = fork_cursor(s.run, event_cursor);
    lemma_first_at_cursor_captured(s.run.snapshots, c);
}

/// Forking at the present right after a checkpoint (the first one at this
/// cursor) gives a child whose generator continues where the parent's is.
pub proof fn lemma_branch_after_checkpoint(s: SimulationView, branch_id: Seq<char>)
    requires
        s.run.events.len() <= usize::MAX,
        forall|j: int| 0 <= j < s.run.snapshots.len() ==> (#[trigger] s.run.snapshots[j]).event_cursor
            != s.run.events.len(),
    ensures
        branch_of(checkpointed(s), branch_id, s.run.events.len() as int) matches Ok(child) && child.rng_state
            == seeded_state(s.rng_state),
{
    let t = checkpointed(s);
    let n = s.run.events.len() as int;
    let snaps = t.run.snapshots;
    assert(snaps[snaps.len() - 1].event_cursor == n);
    lemma_base_snapshot_bounds(snaps, taken_before_cursor(n));
    if base_snapshot(snaps, taken_before_cursor(n)) is None {
        assert(taken_before_cursor(n)(snaps[snaps.len() - 1]));
    }
    lemma_first_at_cursor_captured(snaps, n);
    if first_at_cursor(snaps.filter(captured_by(n)), n) is None {
        assert(snaps[snaps.len() - 1].event_cursor == n);
    }
    lemma_branch_resumes_generator(t, branch_id, n);
    let child = branch_of(t, branch_id, n)->Ok_0;
    let k = choose|k: int|
        0 <= k < snaps.len() && snaps[k].event_cursor == n && (forall|j: int|
            0 <= j < k ==> (#[trigger] snaps[j]).event_cursor != n) && child.rng_state == seeded_state(
            snaps[k].rng_state,
        );
    if k < s.run.snapshots.len() {
        assert(snaps[k] == s.run.snapshots[k]);
    }
}

/// `b` moved by `delta`, then clamped into `[0.0, 1.0]`.
pub open spec fn nudged(b: Binary32, delta: Binary32) -> Binary32 {
    Binary32 { bits: clamp_unit_bits(binary32_sum(b.bits, delta.bits)) }
}

/// `b` clamped into `[0.0, 1.0]`.
pub open spec fn clamped(b: Binary32) -> Binary32 {
    Binary32 { bits: clamp_unit_bits(b.bits) }
}

/// A relationship change moves the observer's relationship towards the target
/// by each delta: trust, conflict and uncertainty each become their old value
/// plus the delta, and then every dimension is clamped into `[0.0, 1.0]`;
/// shared history, the observer's other relationships and everyone else stay
/// as they were. Without such a relationship nothing changes.
pub proof fn lemma_relationship_change(
    w: WorldView,
    observer: PersonId,
    target: PersonId,
    trust_delta: Binary32,
    conflict_delta: Binary32,
    uncertainty_delta: Binary32,
    other: PersonId,
    someone: PersonId,
)
    ensures
        ({
            let e = StateEffectView::RelationshipChanged {
                observer,
                target,
                trust_delta,
                conflict_delta,
                uncertainty_delta,
            };
            let w2 = world_after_effect(w, e);
            match lookup(w.people, observer) {
                None => w2 == w,
                Some(p) => match lookup(p.relationships, target) {
                    None => w2.people == w.people,
                    Some(r) => lookup(w2.people, observer) matches Some(p2) && lookup(p2.relationships, target)
                        matches Some(r2) && r2.trust == nudged(r.trust, trust_delta) && r2.conflict == nudged(
                        r.conflict,
                        conflict_delta,
                    ) && r2.uncertainty == nudged(r.uncertainty, uncertainty_delta) && r2.familiarity
                        == clamped(r.familiarity) && r2.attachment == clamped(r.attachment)
                        && r2.perceived_reciprocity == clamped(r.perceived_reciprocity) && r2.shared_history
                        == r.shared_history && (other != target ==> lookup(p2.relationships, other) == lookup(
                        p.relationships,
                        other,
                    )) && (someone != observer ==> lookup(w2.people, someone) == lookup(w.people, someone)),
                },
            }
        }),
{
    let e = StateEffectView::RelationshipChanged { observer, target, trust_delta, conflict_delta, uncertainty_delta };
    match lookup(w.people, observer) {
        None => {},
        Some(p) => {
            match lookup(p.relationships, target) {
                None => {
                    lemma_key_index(w.people, observer);
                    let i = key_index(w.people, observer)->0;
                    assert(w.people.update(i, (observer, p)) =~= w.people);
                },
                Some(r) => {
                    let r2 = changed_relationship(r, trust_delta, conflict_delta, uncertainty_delta);
                    let p2 = PersonView { relationships: store(p.relationships, target, r2), ..p };
                    lemma_lookup_store(w.people, observer, p2, someone);
                    lemma_lookup_store(p.relationships, target, r2, other);
                },
            }
        },
    }
}

/// A broken promise changes the promisee: they remember it (salience `0.8`),
/// and their relationship towards the promiser, if any, loses `0.15` trust and
/// gains `0.1` conflict and `0.1` uncertainty, each clamped into `[0.0, 1.0]`.
pub proof fn lemma_promise_broken_outcome(s: SimulationView, from: PersonId, to: PersonId, content: Seq<char>)
    requires
        lookup(s.world.people, to) is Some,
    ensures
        ({
            let t = emitted(
                s,
                EventKindView::PromiseBroken { from, to, content },
                broken_promise_effects(from, to, s.world.time, content),
            );
            let p = lookup(s.world.people, to)->0;
            lookup(t.world.people, to) matches Some(p2) && p2.memories == p.memories.push(
                MemoryView {
                    timestamp: s.world.time,
                    description: broken_promise_text(from, content),
                    salience: Binary32 { bits: 0x3F4C_CCCD },
                },
            ) && match lookup(p.relationships, from) {
                Some(r) => lookup(p2.relationships, from) matches Some(r2) && r2.trust == nudged(
                    r.trust,
                    Binary32 { bits: 0xBE19_999A },
                ) && r2.conflict == nudged(r.conflict, Binary32 { bits: 0x3DCC_CCCD }) && r2.uncertainty
                    == nudged(r.uncertainty, Binary32 { bits: 0x3DCC_CCCD }),
                None => p2.relationships == p.relationships,
            }
        }),
{
    let effects = broken_promise_effects(from, to, s.world.time, content);
    let m = effects[0];
    let rc = effects[1];
    let w0 = s.world;
    let p = lookup(w0.people, to)->0;
    assert(effects.drop_last().drop_last() =~= Seq::<StateEffectView>::empty());
    assert(effects.drop_last() =~= seq![m]);
    let w1 = world_after_effect(w0, m);
    assert(world_after_effects(w0, Seq::<StateEffectView>::empty()) == w0);
    assert(seq![m].last() == m);
    assert(world_after_effects(w0, seq![m]) == w1);
    assert(effects.last() == rc);
    assert(world_after_effects(w0, effects) == world_after_effect(w1, rc));
    let pm = person_after_effect(p, m);
    lemma_lookup_store(w0.people, to, pm, to);
    assert(clamp_unit_bits(0x3F4C_CCCD) == 0x3F4C_CCCD);
    lemma_relationship_change(
        w1,
        to,
        from,
        Binary32 { bits: 0xBE19_999A },
        Binary32 { bits: 0x3DCC_CCCD },
        Binary32 { bits: 0x3DCC_CCCD },
        from,
        from,
    );
    lemma_effects_keep_history(w0, effects);
    let w2 = world_after_effects(w0, effects);
    let applied_people = w2.people;
    let t = emitted(s, EventKindView::PromiseBroken { from, to, content }, effects);
    assert(t.world.people == applied_people);
    match lookup(p.relationships, from) {
        Some(r) => {
            let r2 = changed_relationship(
                r,
                Binary32 { bits: 0xBE19_999A },
                Binary32 { bits: 0x3DCC_CCCD },
                Binary32 { bits: 0x3DCC_CCCD },
            );
            let p2 = PersonView { relationships: store(pm.relationships, from, r2), ..pm };
            lemma_lookup_store(w1.people, to, p2, to);
        },
        None => {},
    }
}

/// After a belief change for an existing person, their first belief about the
/// proposition has the new confidence, whether or not they held one before;
/// every belief about another proposition stays as it was, and at most one
/// belief is added.
pub proof fn lemma_belief_change(
    w: WorldView,
    person: PersonId,
    proposition: Seq<char>,
    old_confidence: Binary32,
    new_confidence: Binary32,
)
    requires
        lookup(w.people, person) is Some,
    ensures
        ({
            let e = StateEffectView::BeliefChanged { person, proposition, old_confidence, new_confidence };
            let bs = lookup(w.people, person)->0.beliefs;
            lookup(world_after_effect(w, e).people, person) matches Some(p2) && (exists|i: int|
                0 <= i < p2.beliefs.len() && p2.beliefs[i].proposition == proposition
                    && p2.beliefs[i].confidence == new_confidence && forall|j: int|
                    0 <= j < i ==> (#[trigger] p2.beliefs[j]).proposition != proposition) && bs.len()
                <= p2.beliefs.len() <= bs.len() + 1 && forall|j: int|
                0 <= j < bs.len() && (#[trigger] bs[j]).proposition != proposition ==> p2.beliefs[j] == bs[j]
        }),
{
    let e = StateEffectView::BeliefChanged { person, proposition, old_confidence, new_confidence };
    let p = lookup(w.people, person)->0;
    let bs = p.beliefs;
    let p2 = person_after_effect(p, e);
    lemma_lookup_store(w.people, person, p2, person);
    lemma_belief_index(bs, proposition);
    let nb = p2.beliefs;
    match belief_index(bs, proposition) {
        Some(i) => {
            assert(nb[i].proposition == proposition && nb[i].confidence == new_confidence);
            assert(forall|j: int| 0 <= j < i ==> (#[trigger] nb[j]).proposition != proposition);
        },
        None => {
            let i = bs.len() as int;
            assert(nb[i].proposition == proposition && nb[i].confidence == new_confidence);
            assert(forall|j: int| 0 <= j < i ==> (#[trigger] nb[j]).proposition != proposition);
        },
    }
}

/// `set_belief` for an existing person makes their first belief about the
/// proposition hold the requested confidence clamped into `[0.0, 1.0]`.
pub proof fn lemma_set_belief_outcome(s: SimulationView, person: PersonId, proposition: Seq<char>, confidence: Binary32)
    requires
        lookup(s.world.people, person) is Some,
    ensures
        ({
            let t = emitted(
                s,
                EventKindView::Custom { description: person_id_debug(person) + " belief changed: "@ + proposition },
                seq![
                    StateEffectView::BeliefChanged {
                        person,
                        proposition,
                        old_confidence: prior_confidence(s.world, person, proposition),
                        new_confidence: clamped(confidence),
                    },
                ],
            );
            lookup(t.world.people, person) matches Some(p2) && exists|i: int|
                0 <= i < p2.beliefs.len() && p2.beliefs[i].proposition == proposition && p2.beliefs[i].confidence
                    == clamped(confidence) && forall|j: int|
                    0 <= j < i ==> (#[trigger] p2.beliefs[j]).proposition != proposition
        }),
{
    let e = StateEffectView::BeliefChanged {
        person,
        proposition,
        old_confidence: prior_confidence(s.world, person, proposition),
        new_confidence: clamped(confidence),
    };
    assert(seq![e].drop_last() =~= Seq::<StateEffectView>::empty());
    assert(seq![e].last() == e);
    assert(world_after_effects(s.world, Seq::<StateEffectView>::empty()) == s.world);
    assert(world_after_effects(s.world, seq![e]) == world_after_effect(s.world, e));
    lemma_belief_change(s.world, person, proposition, e->old_confidence, clamped(confidence));
}

/// An instantiated experiment's relationship runs from the setup's source to
/// its target with the setup's trust and attachment, every other dimension
/// `0.0` and no shared history.
pub proof fn lemma_instantiated_relationship(seed: u64, people: Seq<ExperimentPersonView>, r: RelationshipSetup)
    ensures
        instantiated(seed, people, Some(r)) matches Ok(s) ==> lookup(s.world.people, r.from) matches Some(p)
            && lookup(p.relationships, r.to) matches Some(rel) && rel.trust == r.trust && rel.attachment
            == r.attachment && rel.familiarity.bits == 0 && rel.perceived_reciprocity.bits == 0
            && rel.conflict.bits == 0 && rel.uncertainty.bits == 0 && rel.shared_history.len() == 0,
{
    let s = with_people(seeded_simulation(seed), people);
    match lookup(s.world.people, r.from) {
        Some(p) => {
            let p2 = PersonView {
                relationships: store(p.relationships, r.to, initial_relationship(r)),
                ..p
            };
            lemma_lookup_store(s.world.people, r.from, p2, r.from);
            lemma_lookup_store(p.relationships, r.to, initial_relationship(r), r.to);
        },
        None => {},
    }
}

/// Forking at event cursor `event_cursor` (at most the number of events):
/// it succeeds exactly when a snapshot was taken at that cursor, and fails
/// with "no snapshot" when none was taken at or before it, else with "no RNG
/// checkpoint". A child keeps the events before the cursor, exactly the
/// snapshots taken at or before it, the seed, and names its parent and fork
/// point; its world is the parent's history replayed through the cursor; it
/// starts with nothing scheduled and no observation cursors.
pub proof fn lemma_branch_outcome(s: SimulationView, branch_id: Seq<char>, event_cursor: int)
    requires
        0 <= event_cursor,
    ensures
        (branch_of(s, branch_id, event_cursor) is Ok) == (exists|j: int|
            0 <= j < s.run.snapshots.len() && (#[trigger] s.run.snapshots[j]).event_cursor == fork_cursor(
                s.run,
                event_cursor,
            )),
        (forall|j: int|
            0 <= j < s.run.snapshots.len() ==> (#[trigger] s.run.snapshots[j]).event_cursor > fork_cursor(
                s.run,
                event_cursor,
            )) ==> branch_of(s, branch_id, event_cursor) == Err::<SimulationView, Seq<char>>(
            no_replay_base_message(),
        ),
        branch_of(s, branch_id, event_cursor) matches Ok(child) ==> {
            let c = fork_cursor(s.run, event_cursor);
            &&& child.run.events == s.run.events.take(c)
            &&& child.run.seed == s.run.seed
            &&& child.seed == s.seed
            &&& child.run.branch.branch_id == branch_id
            &&& child.run.branch.parent_branch_id == Some(s.run.branch.branch_id)
            &&& child.run.branch.fork_event == if c > 0 { Some(s.run.events[c - 1].id) } else { None }
            &&& (forall|x: SnapshotView| #[trigger] child.run.snapshots.contains(x) <==> s.run.snapshots.contains(x)
                && x.event_cursor <= c)
            &&& exists|b: int| #[trigger] replays_through_from(s.run, c, b, child.world)
            &&& child.scheduled.len() == 0
            &&& child.cursors.len() == 0
        },
{
    let c = fork_cursor(s.run, event_cursor);
    let snaps = s.run.snapshots;
    lemma_replay_through_cursor(s.run, c);
    assert(fork_cursor(s.run, c) == c);
    lemma_first_at_cursor_captured(snaps, c);
    let f = snaps.filter(captured_by(c));
    if exists|j: int| 0 <= j < snaps.len() && (#[trigger] snaps[j]).event_cursor == c {
        let j = choose|j: int| 0 <= j < snaps.len() && (#[trigger] snaps[j]).event_cursor == c;
        assert(snaps[j].event_cursor <= c);
    }
    assert forall|x: SnapshotView| #[trigger] f.contains(x) <==> snaps.contains(x) && x.event_cursor <= c by {
        if f.contains(x) {
            snaps.lemma_filter_contains_rev(captured_by(c), x);
            let i = choose|i: int| 0 <= i < f.len() && f[i] == x;
            snaps.lemma_filter_pred(captured_by(c), i);
        }
        if snaps.contains(x) && x.event_cursor <= c {
            let i = choose|i: int| 0 <= i < snaps.len() && snaps[i] == x;
            snaps.lemma_filter_contains(captured_by(c), i);
        }
    }
    if branch_of(s, branch_id, event_cursor) is Ok {
        let child = branch_of(s, branch_id, event_cursor)->Ok_0;
        assert(child.run.snapshots == f);
        let w = replayed_through(s.run, c)->0;
        assert(child.world == w);
        let b = choose|b: int| #[trigger] replays_through_from(s.run, c, b, w);
        assert(replays_through_from(s.run, c, b, child.world));
    }
}

/// Each effect changes only the person it concerns, and only when they exist:
/// entering a room puts them in it; leaving the room they are in puts them
/// nowhere (leaving another room changes nothing); a memory is appended with
/// its salience clamped into `[0.0, 1.0]`; an affect change sets valence and
/// arousal to the new values.
pub proof fn lemma_effect_outcome(w: WorldView, e: StateEffectView, someone: PersonId)
    ensures
        someone != effect_subject(e) ==> lookup(world_after_effect(w, e).people, someone) == lookup(
            w.people,
            someone,
        ),
        lookup(w.people, effect_subject(e)) is None ==> world_after_effect(w, e) == w,
        lookup(w.people, effect_subject(e)) matches Some(p) ==> (lookup(
            world_after_effect(w, e).people,
            effect_subject(e),
        ) matches Some(p2) && match e {
            StateEffectView::PersonEnteredRoom { room, .. } => p2 == PersonView { location: Some(room), ..p },
            StateEffectView::PersonLeftRoom { room, .. } => p2 == if p.location == Some(room) {
                PersonView { location: None, ..p }
            } else {
                p
            },
            StateEffectView::MemoryAdded { timestamp, description, salience, .. } => p2 == PersonView {
                memories: p.memories.push(MemoryView { timestamp, description, salience: clamped(salience) }),
                ..p
            },
            StateEffectView::AffectChanged { new_valence, new_arousal, .. } => p2.affect.valence == new_valence
                && p2.affect.arousal == new_arousal && p2 == PersonView { affect: p2.affect, ..p },
            _ => true,
        }),
{
    let k = effect_subject(e);
    match lookup(w.people, k) {
        None => {},
        Some(p) => {
            lemma_lookup_store(w.people, k, person_after_effect(p, e), someone);
            lemma_lookup_store(w.people, k, person_after_effect(p, e), k);
        },
    }
}

/// Emitting one effect changes the people as that effect does.
proof fn lemma_single_effect_emitted(s: SimulationView, kind: EventKindView, e: StateEffectView)
    ensures
        emitted(s, kind, seq![e]).world.people == world_after_effect(s.world, e).people,
{
    assert(seq![e].drop_last() =~= Seq::<StateEffectView>::empty());
    assert(seq![e].last() == e);
    assert(world_after_effects(s.world, Seq::<StateEffectView>::empty()) == s.world);
    lemma_effects_keep_history(s.world, seq![e]);
}

/// The room and affect operations on an existing person: `enter_room` puts
/// them in the room; `leave_room` takes them out of it if they are in it;
/// `set_affect` sets their valence and arousal to the given values.
pub proof fn lemma_room_and_affect_outcomes(s: SimulationView, person: PersonId, room: Seq<char>, valence: Binary32, arousal: Binary32)
    requires
        lookup(s.world.people, person) is Some,
    ensures
        lookup(
            emitted(
                s,
                EventKindView::PersonEnteredRoom { person, room },
                seq![StateEffectView::PersonEnteredRoom { person, room }],
            ).world.people,
            person,
        ) matches Some(p) && p.location == Some(room),
        lookup(s.world.people, person)->0.location == Some(room) ==> (lookup(
            emitted(
                s,
                EventKindView::PersonLeftRoom { person, room },
                seq![StateEffectView::PersonLeftRoom { person, room }],
            ).world.people,
            person,
        ) matches Some(p) && p.location is None),
        lookup(
            emitted(
                s,
                EventKindView::AffectChanged { person },
                seq![
                    StateEffectView::AffectChanged {
                        person,
                        old_valence: prior_affect(s.world, person).0,
                        new_valence: valence,
                        old_arousal: prior_affect(s.world, person).1,
                        new_arousal: arousal,
                    },
                ],
            ).world.people,
            person,
        ) matches Some(p) && p.affect.valence == valence && p.affect.arousal == arousal,
{
    let e1 = StateEffectView::PersonEnteredRoom { person, room };
    let e2 = StateEffectView::PersonLeftRoom { person, room };
    let e3 = StateEffectView::AffectChanged {
        person,
        old_valence: prior_affect(s.world, person).0,
        new_valence: valence,
        old_arousal: prior_affect(s.world, person).1,
        new_arousal: arousal,
    };
    lemma_single_effect_emitted(s, EventKindView::PersonEnteredRoom { person, room }, e1);
    lemma_single_effect_emitted(s, EventKindView::PersonLeftRoom { person, room }, e2);
    lemma_single_effect_emitted(s, EventKindView::AffectChanged { person }, e3);
    lemma_effect_outcome(s.world, e1, person);
    lemma_effect_outcome(s.world, e2, person);
    lemma_effect_outcome(s.world, e3, person);
}

} // verus!
