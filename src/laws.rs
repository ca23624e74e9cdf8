//! Properties that span several calls or every state of the simulation.
use vstd::prelude::*;
use crate::store::{
    committed, count_live, count_standing, generations_grow, lemma_count_push,
    lemma_count_update, live_in, no_doomed, placed, retired_in, standing, Handle, Kind,
    Slot, StoreView,
};
use crate::world::{fire_step, request_at, struck, target, Strike, WorldView};

verus! {

proof fn lemma_unmarked_counts(s: Seq<Slot>, k: Kind)
    requires
        no_doomed(s),
    ensures
        count_standing(s, k) == count_live(s, k),
    decreases s.len(),
{
    if s.len() > 0 {
        assert(no_doomed(s.drop_last())) by {
            assert forall|i: int| 0 <= i < s.drop_last().len() implies !(
            #[trigger] s.drop_last()[i]).doomed by {
                assert(s.drop_last()[i] == s[i]);
            }
        }
        lemma_unmarked_counts(s.drop_last(), k);
        assert(!s[s.len() - 1].doomed);
    }
}

/// Once the marks of a tick are committed, the active enemy count is the
/// number of live enemies. `World::tick` ends in such a state.
pub proof fn lemma_enemy_count_is_population(w: WorldView)
    requires
        w.inv(),
        no_doomed(w.store.slots),
    ensures
        w.store.enemies == count_live(w.store.slots, Kind::Enemy),
{
    lemma_unmarked_counts(w.store.slots, Kind::Enemy);
}

/// A commit retires the handle of every marked entity: it is no longer live.
pub proof fn lemma_commit_retires(before: Seq<Slot>, after: Seq<Slot>, h: Handle)
    requires
        live_in(before, h),
        before[h.index as int].doomed,
        before[h.index as int].generation < u64::MAX,
        after.len() == before.len(),
        forall|i: int| 0 <= i < before.len() ==> #[trigger] after[i] == committed(before[i]),
    ensures
        retired_in(after, h),
        !live_in(after, h),
{
    assert(after[h.index as int] == committed(before[h.index as int]));
}

/// A retired handle stays retired through any later change that keeps
/// slots and never lowers a generation, which every operation on the world
/// does: a destroyed entity is never seen live again.
pub proof fn lemma_retired_stays_retired(a: Seq<Slot>, b: Seq<Slot>, h: Handle)
    requires
        retired_in(a, h),
        generations_grow(a, b),
    ensures
        retired_in(b, h),
        !live_in(b, h),
{
    assert(a[h.index as int].generation <= b[h.index as int].generation);
}

/// A laser that hits takes exactly one enemy and itself out of play and
/// leaves exactly one explosion request.
pub proof fn lemma_strike_counts(b: StoreView, f: StoreView, l: Handle, st: Strike)
    requires
        b.inv(),
        b.live(l),
        standing(b.slots[l.index as int], Kind::Laser),
        st.enemy.index < b.slots.len(),
        st.enemy.generation == b.slots[st.enemy.index as int].generation,
        target(b.slots, b.entity(l), st.enemy.index as int),
        placed(struck(b, l, st.enemy), f, st.request, request_at(b.entity(st.enemy))),
    ensures
        count_standing(f.slots, Kind::Enemy) + 1 == count_standing(b.slots, Kind::Enemy),
        count_standing(f.slots, Kind::Laser) + 1 == count_standing(b.slots, Kind::Laser),
        count_standing(f.slots, Kind::ExplosionRequest) == count_standing(
            b.slots,
            Kind::ExplosionRequest,
        ) + 1,
{
    let e = st.enemy.index as int;
    let li = l.index as int;
    let s0 = b.slots;
    let s1 = s0.update(e, Slot { doomed: true, ..s0[e] });
    let s2 = s1.update(li, Slot { doomed: true, ..s1[li] });
    let m = struck(b, l, st.enemy);
    assert(m.slots == s2);
    let q = Slot { generation: st.request.generation, entity: Some(request_at(b.entity(st.enemy))), doomed: false };
    lemma_count_update(s0, e, s1[e], Kind::Enemy);
    lemma_count_update(s0, e, s1[e], Kind::Laser);
    lemma_count_update(s0, e, s1[e], Kind::ExplosionRequest);
    lemma_count_update(s1, li, s2[li], Kind::Enemy);
    lemma_count_update(s1, li, s2[li], Kind::Laser);
    lemma_count_update(s1, li, s2[li], Kind::ExplosionRequest);
    if st.request.index < s2.len() {
        let r = st.request.index as int;
        assert(f.slots == s2.update(r, q));
        lemma_count_update(s2, r, q, Kind::Enemy);
        lemma_count_update(s2, r, q, Kind::Laser);
        lemma_count_update(s2, r, q, Kind::ExplosionRequest);
    } else {
        assert(f.slots == s2.push(q));
        lemma_count_push(s2, q, Kind::Enemy);
        lemma_count_push(s2, q, Kind::Laser);
        lemma_count_push(s2, q, Kind::ExplosionRequest);
    }
}

/// The number of lasers fired over a run of ticks in which the trigger is
/// held or not as `held` says, starting from readiness `ready`.
pub open spec fn lasers_fired(ready: bool, held: Seq<bool>) -> nat
    decreases held.len(),
{
    if held.len() == 0 {
        0
    } else {
        let step = fire_step(ready, held[0]);
        (if step.0 {
            1nat
        } else {
            0nat
        }) + lasers_fired(step.1, held.drop_first())
    }
}

proof fn lemma_unready_held_fires_none(held: Seq<bool>)
    requires
        forall|i: int| 0 <= i < held.len() ==> #[trigger] held[i],
    ensures
        lasers_fired(false, held) == 0,
    decreases held.len(),
{
    if held.len() > 0 {
        assert(held[0]);
        assert forall|i: int| 0 <= i < held.drop_first().len() implies #[trigger] held.drop_first()[i] by {
            assert(held.drop_first()[i] == held[i + 1]);
        }
        lemma_unready_held_fires_none(held.drop_first());
    }
}

/// Holding the trigger through any number of ticks fires at most one laser,
/// and so never more than one per tick: the trigger fires on its edge, not
/// once per tick.
pub proof fn lemma_held_trigger_fires_once(ready: bool, held: Seq<bool>)
    requires
        forall|i: int| 0 <= i < held.len() ==> #[trigger] held[i],
    ensures
        lasers_fired(ready, held) <= 1,
        lasers_fired(ready, held) <= held.len(),
{
    if held.len() > 0 {
        assert(held[0]);
        assert forall|i: int| 0 <= i < held.drop_first().len() implies #[trigger] held.drop_first()[i] by {
            assert(held.drop_first()[i] == held[i + 1]);
        }
        lemma_unready_held_fires_none(held.drop_first());
    }
}

} // verus!
