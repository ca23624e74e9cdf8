//! The entity store: an arena of generation-counted slots.
//!
//! Destruction is deferred: `destroy` only marks a slot, and `commit` applies
//! every mark at once, so a pass over the slots never sees an entity vanish
//! under it. A committed slot gets a new generation, which makes every handle
//! to the old occupant stale for good.
use vstd::prelude::*;

verus! {

/// The archetype of an entity.
#[derive(Clone, Copy, Debug, PartialEq, Eq, Structural)]
pub enum Kind {
    Player,
    Laser,
    Enemy,
    ExplosionRequest,
    Explosion,
}

/// Movement rate in pixels per second.
#[derive(Clone, Copy, Debug, PartialEq, Eq, Structural)]
pub struct Speed(pub u32);

pub const DEFAULT_SPEED: u32 = 500;

impl Default for Speed {
    fn default() -> (r: Self)
        ensures
            r.0 == DEFAULT_SPEED,
    {
        Speed(DEFAULT_SPEED)
    }
}

/// An image handle of the render layer, with its size in pixels.
#[derive(Clone, Copy, Debug, PartialEq, Eq, Structural)]
pub struct Sprite {
    pub image: u64,
    pub w: u32,
    pub h: u32,
}

/// Position and scale. Coordinates are in sub-pixel units (see
/// `UNITS_PER_PIXEL` in the geometry module); `z` only orders painting.
/// Scales are percentages.
#[derive(Clone, Copy, Debug, PartialEq, Eq, Structural)]
pub struct Transform {
    pub x: i64,
    pub y: i64,
    pub z: i64,
    pub sx_pct: u32,
    pub sy_pct: u32,
}

/// One entity's record. `ready` is read for the player only, `life` for
/// explosions only (ticks left to live).
#[derive(Clone, Copy, Debug, PartialEq, Eq, Structural)]
pub struct Entity {
    pub kind: Kind,
    pub tf: Transform,
    pub sprite: Sprite,
    pub speed: Speed,
    pub ready: bool,
    pub life: u32,
}

/// A stable reference to an entity: a slot index and the slot's generation
/// when the entity was placed there.
#[derive(Clone, Copy, Debug, PartialEq, Eq, Structural)]
pub struct Handle {
    pub index: usize,
    pub generation: u64,
}

/// One arena slot. `doomed` marks an entity whose destruction awaits the
/// next commit.
#[derive(Clone, Copy, Debug, PartialEq, Eq, Structural)]
pub struct Slot {
    pub generation: u64,
    pub entity: Option<Entity>,
    pub doomed: bool,
}

pub open spec fn occupied(s: Slot) -> bool {
    s.entity is Some
}

/// A slot that `create` may fill.
pub open spec fn free(s: Slot) -> bool {
    s.entity is None && s.generation < u64::MAX
}

/// An entity of kind `k` that is live and not marked for destruction.
pub open spec fn standing(s: Slot, k: Kind) -> bool {
    s.entity is Some && s.entity->0.kind == k && !s.doomed
}

pub open spec fn count_standing(s: Seq<Slot>, k: Kind) -> nat
    decreases s.len(),
{
    if s.len() == 0 {
        0
    } else {
        count_standing(s.drop_last(), k) + if standing(s.last(), k) {
            1nat
        } else {
            0nat
        }
    }
}

/// The number of live entities of kind `k`, whether marked or not.
pub open spec fn count_live(s: Seq<Slot>, k: Kind) -> nat
    decreases s.len(),
{
    if s.len() == 0 {
        0
    } else {
        count_live(s.drop_last(), k) + if occupied(s.last()) && s.last().entity->0.kind == k {
            1nat
        } else {
            0nat
        }
    }
}

/// What a slot becomes at commit.
pub open spec fn committed(s: Slot) -> Slot {
    if s.doomed {
        Slot { generation: (s.generation + 1) as u64, entity: None, doomed: false }
    } else {
        s
    }
}

pub open spec fn live_in(slots: Seq<Slot>, h: Handle) -> bool {
    h.index < slots.len() && slots[h.index as int].generation == h.generation
        && occupied(slots[h.index as int])
}

/// A handle whose slot has moved on to a later generation.
pub open spec fn retired_in(slots: Seq<Slot>, h: Handle) -> bool {
    h.index < slots.len() && slots[h.index as int].generation > h.generation
}

/// Slots are never removed and generations never go back.
pub open spec fn generations_grow(a: Seq<Slot>, b: Seq<Slot>) -> bool {
    a.len() <= b.len() && forall|i: int|
        0 <= i < a.len() ==> #[trigger] a[i].generation <= b[i].generation
}

pub open spec fn no_doomed(slots: Seq<Slot>) -> bool {
    forall|i: int| 0 <= i < slots.len() ==> !(#[trigger] slots[i]).doomed
}

pub struct StoreView {
    pub slots: Seq<Slot>,
    pub enemies: nat,
}

/// `b` is `a` with `e` placed by `create` under handle `h`: in the first
/// free slot, or in a new slot at the end when none is free.
pub open spec fn placed(a: StoreView, b: StoreView, h: Handle, e: Entity) -> bool {
    &&& h.index <= a.slots.len()
    &&& forall|j: int| 0 <= j < h.index ==> !free(#[trigger] a.slots[j])
    &&& h.index < a.slots.len() ==> free(a.slots[h.index as int]) && h.generation
        == a.slots[h.index as int].generation && b.slots == a.slots.update(
        h.index as int,
        Slot { generation: h.generation, entity: Some(e), doomed: false },
    )
    &&& h.index == a.slots.len() ==> h.generation == 0 && b.slots == a.slots.push(
        Slot { generation: 0, entity: Some(e), doomed: false },
    )
    &&& b.enemies == a.enemies + if e.kind == Kind::Enemy {
        1nat
    } else {
        0nat
    }
}

impl StoreView {
    pub open spec fn live(self, h: Handle) -> bool {
        live_in(self.slots, h)
    }

    pub open spec fn entity(self, h: Handle) -> Entity {
        self.slots[h.index as int].entity->0
    }

    pub open spec fn doomed(self, h: Handle) -> bool {
        self.slots[h.index as int].doomed
    }

    /// The store's invariant: the enemy count equals the number of enemies
    /// not marked for destruction, a live slot can still take one more
    /// generation, and only live slots are marked.
    pub open spec fn inv(self) -> bool {
        &&& self.enemies == count_standing(self.slots, Kind::Enemy)
        &&& forall|i: int|
            0 <= i < self.slots.len() && occupied(#[trigger] self.slots[i])
                ==> self.slots[i].generation < u64::MAX
        &&& forall|i: int|
            0 <= i < self.slots.len() && (#[trigger] self.slots[i]).doomed
                ==> occupied(self.slots[i])
    }
}

pub proof fn lemma_count_push(s: Seq<Slot>, v: Slot, k: Kind)
    ensures
        count_standing(s.push(v), k) == count_standing(s, k) + if standing(v, k) {
            1nat
        } else {
            0nat
        },
{
    assert(s.push(v).drop_last() =~= s);
}

pub proof fn lemma_count_update(s: Seq<Slot>, i: int, v: Slot, k: Kind)
    requires
        0 <= i < s.len(),
    ensures
        count_standing(s.update(i, v), k) + (if standing(s[i], k) {
            1nat
        } else {
            0nat
        }) == count_standing(s, k) + if standing(v, k) {
            1nat
        } else {
            0nat
        },
    decreases s.len(),
{
    if i == s.len() - 1 {
        assert(s.update(i, v).drop_last() =~= s.drop_last());
    } else {
        lemma_count_update(s.drop_last(), i, v, k);
        assert(s.update(i, v).drop_last() =~= s.drop_last().update(i, v));
    }
}

pub proof fn lemma_count_bound(s: Seq<Slot>, k: Kind)
    ensures
        count_standing(s, k) <= s.len(),
    decreases s.len(),
{
    if s.len() > 0 {
        lemma_count_bound(s.drop_last(), k);
    }
}

/// Placing an entity adds one standing entity of its kind and none of any
/// other, since the slot it takes was free.
pub proof fn lemma_placed_counts(a: StoreView, b: StoreView, h: Handle, e: Entity, k: Kind)
    requires
        placed(a, b, h, e),
    ensures
        count_standing(b.slots, k) == count_standing(a.slots, k) + if e.kind == k {
            1nat
        } else {
            0nat
        },
{
    let v = Slot { generation: h.generation, entity: Some(e), doomed: false };
    if h.index < a.slots.len() {
        lemma_count_update(a.slots, h.index as int, v, k);
    } else {
        lemma_count_push(a.slots, v, k);
    }
}

pub proof fn lemma_none_standing(s: Seq<Slot>, k: Kind)
    requires
        forall|i: int| 0 <= i < s.len() ==> !standing(#[trigger] s[i], k),
    ensures
        count_standing(s, k) == 0,
    decreases s.len(),
{
    if s.len() > 0 {
        assert(!standing(s[s.len() - 1], k));
        assert forall|i: int| 0 <= i < s.drop_last().len() implies !standing(
            #[trigger] s.drop_last()[i],
            k,
        ) by {
            assert(s.drop_last()[i] == s[i]);
        }
        lemma_none_standing(s.drop_last(), k);
    }
}

/// The arena. Its fields are private: every change goes through the methods
/// below, which keep `StoreView::inv`.
pub struct Store {
    slots: Vec<Slot>,
    enemies: usize,
}

impl View for Store {
    type V = StoreView;

    closed spec fn view(&self) -> StoreView {
        StoreView { slots: self.slots@, enemies: self.enemies as nat }
    }
}

impl Store {
    pub fn new() -> (r: Store)
        ensures
            r@.slots.len() == 0,
            r@.enemies == 0,
            r@.inv(),
    {
        Store { slots: Vec::new(), enemies: 0 }
    }

    pub fn len(&self) -> (r: usize)
        ensures
            r == self@.slots.len(),
    {
        self.slots.len()
    }

    pub fn slot(&self, i: usize) -> (r: Slot)
        requires
            i < self@.slots.len(),
        ensures
            r == self@.slots[i as int],
    {
        self.slots[i]
    }

    /// The number of enemies that are live and not marked for destruction.
    pub fn active_enemies(&self) -> (r: usize)
        ensures
            r == self@.enemies,
    {
        self.enemies
    }

    /// Handles of the live entities of kind `k`, marked ones included, in
    /// slot order. Marks made after the call do not change what it lists.
    pub fn live_of(&self, k: Kind) -> (r: Vec<Handle>)
        ensures
            forall|t: int|
                0 <= t < r@.len() ==> self@.live(#[trigger] r@[t]) && self@.entity(r@[t]).kind
                    == k,
            forall|t: int, u: int| 0 <= t < u < r@.len() ==> r@[t].index < r@[u].index,
            forall|i: int|
                0 <= i < self@.slots.len() && occupied(#[trigger] self@.slots[i])
                    && self@.slots[i].entity->0.kind == k ==> exists|t: int|
                    0 <= t < r@.len() && (#[trigger] r@[t]).index == i,
    {
        let mut r: Vec<Handle> = Vec::new();
        let n = self.slots.len();
        let mut i: usize = 0;
        while i < n
            invariant
                n == self.slots@.len(),
                i <= n,
                forall|t: int|
                    0 <= t < r@.len() ==> self@.live(#[trigger] r@[t]) && self@.entity(r@[t]).kind
                        == k && r@[t].index < i,
                forall|t: int, u: int| 0 <= t < u < r@.len() ==> r@[t].index < r@[u].index,
                forall|j: int|
                    0 <= j < i && occupied(#[trigger] self@.slots[j])
                        && self@.slots[j].entity->0.kind == k ==> exists|t: int|
                        0 <= t < r@.len() && (#[trigger] r@[t]).index == j,
            decreases n - i,
        {
            let s = self.slots[i];
            if let Some(e) = s.entity {
                if e.kind == k {
                    let ghost r0 = r@;
                    r.push(Handle { index: i, generation: s.generation });
                    proof {
                        let last = r@.len() - 1;
                        assert(r@[last].index == i);
                        assert forall|j: int|
                            0 <= j < i + 1 && occupied(#[trigger] self@.slots[j])
                                && self@.slots[j].entity->0.kind == k implies exists|t: int|
                            0 <= t < r@.len() && (#[trigger] r@[t]).index == j by {
                            if j < i {
                                let t0 = choose|t: int| 0 <= t < r0.len() && (#[trigger] r0[t]).index == j;
                                assert(r@[t0] == r0[t0]);
                            } else {
                                assert(r@[last].index == j);
                            }
                        }
                    }
                }
            }
            i = i + 1;
        }
        r
    }

    /// Places `e` in the first free slot, or in a new slot at the end.
    pub fn create(&mut self, e: Entity) -> (h: Handle)
        requires
            old(self)@.inv(),
        ensures
            final(self)@.inv(),
            placed(old(self)@, final(self)@, h, e),
            final(self)@.live(h),
            final(self)@.entity(h) == e,
            !final(self)@.doomed(h),
            generations_grow(old(self)@.slots, final(self)@.slots),
    {
        let n = self.slots.len();
        let mut i: usize = 0;
        while i < n
            invariant
                n == self.slots@.len(),
                i <= n,
                forall|j: int| 0 <= j < i ==> !free(#[trigger] self.slots@[j]),
            ensures
                i <= n,
                i < n ==> free(self.slots@[i as int]),
                forall|j: int| 0 <= j < i ==> !free(#[trigger] self.slots@[j]),
            decreases n - i,
        {
            let s = self.slots[i];
            if s.entity.is_none() && s.generation < u64::MAX {
                break;
            }
            i = i + 1;
        }
        let ghost before = self.slots@;
        proof {
            lemma_count_bound(before, Kind::Enemy);
        }
        if i < n {
            let g = self.slots[i].generation;
            let s = Slot { generation: g, entity: Some(e), doomed: false };
            self.slots.set(i, s);
            proof {
                lemma_count_update(before, i as int, s, Kind::Enemy);
                lemma_count_bound(self.slots@, Kind::Enemy);
            }
            if e.kind == Kind::Enemy {
                self.enemies = self.enemies + 1;
            }
            Handle { index: i, generation: g }
        } else {
            let s = Slot { generation: 0, entity: Some(e), doomed: false };
            self.slots.push(s);
            let last = self.slots.len() - 1;
            proof {
                lemma_count_push(before, s, Kind::Enemy);
                lemma_count_bound(self.slots@, Kind::Enemy);
            }
            if e.kind == Kind::Enemy {
                self.enemies = self.enemies + 1;
            }
            Handle { index: last, generation: 0 }
        }
    }

    /// The entity behind `h`, or `None` once its destruction is committed.
    pub fn get(&self, h: Handle) -> (r: Option<Entity>)
        ensures
            r is Some <==> self@.live(h),
            r is Some ==> r->0 == self@.entity(h),
    {
        if h.index < self.slots.len() {
            let s = self.slots[h.index];
            if s.generation == h.generation {
                return s.entity;
            }
        }
        None
    }

    /// Marks the entity behind `h` for destruction at the next commit. An
    /// enemy stops counting at once. A stale or already marked handle is
    /// left alone, and `false` is returned.
    pub fn destroy(&mut self, h: Handle) -> (r: bool)
        requires
            old(self)@.inv(),
        ensures
            final(self)@.inv(),
            r == (old(self)@.live(h) && !old(self)@.doomed(h)),
            r ==> final(self)@.slots == old(self)@.slots.update(
                h.index as int,
                Slot { doomed: true, ..old(self)@.slots[h.index as int] },
            ),
            r ==> final(self)@.enemies + (if old(self)@.entity(h).kind == Kind::Enemy {
                1nat
            } else {
                0nat
            }) == old(self)@.enemies,
            !r ==> final(self)@ == old(self)@,
            generations_grow(old(self)@.slots, final(self)@.slots),
    {
        if h.index >= self.slots.len() {
            return false;
        }
        let s = self.slots[h.index];
        if s.generation != h.generation || s.doomed {
            return false;
        }
        match s.entity {
            None => false,
            Some(e) => {
                let ghost before = self.slots@;
                let t = Slot { doomed: true, ..s };
                self.slots.set(h.index, t);
                proof {
                    lemma_count_update(before, h.index as int, t, Kind::Enemy);
                }
                if e.kind == Kind::Enemy {
                    self.enemies = self.enemies - 1;
                }
                true
            },
        }
    }

    /// Replaces the record behind a live handle, keeping its kind and its
    /// mark. Returns `false`, changing nothing, for a stale handle or a
    /// record of another kind.
    pub fn update(&mut self, h: Handle, e: Entity) -> (r: bool)
        requires
            old(self)@.inv(),
        ensures
            final(self)@.inv(),
            r == (old(self)@.live(h) && old(self)@.entity(h).kind == e.kind),
            r ==> final(self)@.slots == old(self)@.slots.update(
                h.index as int,
                Slot { entity: Some(e), ..old(self)@.slots[h.index as int] },
            ),
            final(self)@.enemies == old(self)@.enemies,
            !r ==> final(self)@ == old(self)@,
            generations_grow(old(self)@.slots, final(self)@.slots),
    {
        if h.index >= self.slots.len() {
            return false;
        }
        let s = self.slots[h.index];
        if s.generation != h.generation {
            return false;
        }
        match s.entity {
            None => false,
            Some(old_e) => {
                if old_e.kind != e.kind {
                    return false;
                }
                let ghost before = self.slots@;
                let t = Slot { entity: Some(e), ..s };
                self.slots.set(h.index, t);
                proof {
                    lemma_count_update(before, h.index as int, t, Kind::Enemy);
                }
                true
            },
        }
    }

    /// Applies every pending destruction: each marked slot is emptied and
    /// moves to its next generation.
    pub fn commit(&mut self)
        requires
            old(self)@.inv(),
        ensures
            final(self)@.inv(),
            final(self)@.enemies == old(self)@.enemies,
            final(self)@.slots.len() == old(self)@.slots.len(),
            forall|i: int|
                0 <= i < old(self)@.slots.len() ==> #[trigger] final(self)@.slots[i] == committed(
                    old(self)@.slots[i],
                ),
            no_doomed(final(self)@.slots),
            generations_grow(old(self)@.slots, final(self)@.slots),
    {
        let n = self.slots.len();
        let mut i: usize = 0;
        while i < n
            invariant
                n == self.slots@.len(),
                n == old(self)@.slots.len(),
                i <= n,
                self@.inv(),
                self.enemies == old(self)@.enemies,
                forall|j: int| 0 <= j < i ==> #[trigger] self.slots@[j] == committed(
                    old(self)@.slots[j],
                ),
                forall|j: int| i <= j < n ==> #[trigger] self.slots@[j] == old(self)@.slots[j],
            decreases n - i,
        {
            let s = self.slots[i];
            if s.doomed {
                let ghost before = self.slots@;
                let t = Slot { generation: s.generation + 1, entity: None, doomed: false };
                self.slots.set(i, t);
                proof {
                    lemma_count_update(before, i as int, t, Kind::Enemy);
                }
            }
            i = i + 1;
        }
    }
}

} // verus!
