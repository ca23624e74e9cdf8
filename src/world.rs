//! The simulation context and the systems that run in each tick.
use vstd::prelude::*;
use crate::geometry::{collide, hits, moved, shift, UNITS_PER_PIXEL};
use crate::store::{
    committed, count_live, count_standing, free, generations_grow, lemma_count_bound,
    lemma_count_update, lemma_none_standing, lemma_placed_counts, no_doomed, occupied, placed,
    standing, Entity, Handle, Kind, Slot, Speed, Sprite, Store, StoreView, Transform,
    DEFAULT_SPEED,
};

verus! {

/// Sprite scale of every spawned ship and laser, in percent.
pub const SCALE_PCT: u32 = 50;

/// Height of the player above the bottom edge: 23.75 pixels, in units.
pub const PLAYER_LIFT: i64 = 1425;

/// Distance of the enemy spawn line below the top edge: 100 pixels, in units.
pub const ENEMY_DROP: i64 = 6000;

pub const PLAYER_Z: i64 = 10;

pub const LASER_Z: i64 = 5;

pub const ENEMY_Z: i64 = 10;

pub const MAX_ENEMIES: usize = 2;

/// Ticks between two enemy spawn attempts.
pub const ENEMY_SPAWN_TICKS: u32 = 60;

/// Ticks an explosion lasts.
pub const EXPLOSION_TICKS: u32 = 48;

/// Handles of the render layer's images, with their sizes.
#[derive(Clone, Copy, Debug, PartialEq, Eq, Structural)]
pub struct Materials {
    pub player: Sprite,
    pub laser: Sprite,
    pub enemy: Sprite,
    pub explosion: Sprite,
}

/// The input held during one tick.
#[derive(Clone, Copy, Debug, PartialEq, Eq, Structural)]
pub struct Input {
    pub left: bool,
    pub right: bool,
    pub fire: bool,
}

/// The outcome of one laser's hit: the enemy it destroyed and the explosion
/// request left in its place.
#[derive(Clone, Copy, Debug, PartialEq, Eq, Structural)]
pub struct Strike {
    pub enemy: Handle,
    pub request: Handle,
}

/// The world as the contracts see it. Half sizes of the play area are in
/// units; the spawn timer counts down to zero between enemy spawns.
pub struct WorldView {
    pub store: StoreView,
    pub materials: Materials,
    pub half_w: int,
    pub half_h: int,
    pub max_enemies: nat,
    pub spawn_interval: nat,
    pub spawn_countdown: nat,
    pub player: Option<Handle>,
}

impl WorldView {
    /// The store's invariant, a running spawn timer, and a play area whose
    /// half sizes come from `u32` pixel sizes.
    pub open spec fn inv(self) -> bool {
        &&& self.store.inv()
        &&& self.spawn_interval >= 1
        &&& self.spawn_countdown < self.spawn_interval
        &&& 0 <= self.half_w <= 0xffff_ffff * 30
        &&& 0 <= self.half_h <= 0xffff_ffff * 30
    }

    pub open spec fn with_player(self, p: Option<Handle>) -> WorldView {
        WorldView { player: p, ..self }
    }

    /// Same world, but for the store.
    pub open spec fn with_store(self, s: StoreView) -> WorldView {
        WorldView { store: s, ..self }
    }

    pub open spec fn top(self) -> int {
        self.half_h
    }

    pub open spec fn bottom(self) -> int {
        -self.half_h
    }
}

/// Horizontal displacement in one tick at `speed`: right, left, or none
/// when neither or both move keys are held.
pub open spec fn drift(left: bool, right: bool, speed: int) -> int {
    if right && !left {
        speed
    } else if left && !right {
        -speed
    } else {
        0
    }
}

/// One tick of the fire trigger: whether a laser leaves, and the new
/// readiness. A held trigger fires only when ready, and readiness comes back
/// only once the trigger is released.
pub open spec fn fire_step(ready: bool, held: bool) -> (bool, bool) {
    (ready && held, !held)
}

/// A freshly spawned player, laser or enemy.
pub open spec fn ship(kind: Kind, x: i64, y: i64, z: i64, sprite: Sprite, ready: bool) -> Entity {
    Entity {
        kind,
        tf: Transform { x, y, z, sx_pct: SCALE_PCT, sy_pct: SCALE_PCT },
        sprite,
        speed: Speed(DEFAULT_SPEED),
        ready,
        life: 0,
    }
}

/// The explosion request left where `enemy` stood.
pub open spec fn request_at(enemy: Entity) -> Entity {
    Entity { kind: Kind::ExplosionRequest, speed: Speed(0), ready: false, life: 0, ..enemy }
}

/// The explosion made from a request, with the explosion sheet and full life.
pub open spec fn explosion_from(req: Entity, sprite: Sprite) -> Entity {
    Entity {
        kind: Kind::Explosion,
        tf: Transform { sx_pct: 100, sy_pct: 100, ..req.tf },
        sprite,
        speed: Speed(0),
        ready: false,
        life: EXPLOSION_TICKS,
    }
}

/// The player after one tick of movement.
pub open spec fn player_moved(e: Entity, left: bool, right: bool) -> Entity {
    Entity {
        tf: Transform { x: moved(e.tf.x, drift(left, right, e.speed.0 as int)), ..e.tf },
        ..e
    }
}

/// A slot after one tick of laser movement: a standing laser climbs by its
/// speed and is marked once it is above `top`.
pub open spec fn flown(s: Slot, top: int) -> Slot {
    if standing(s, Kind::Laser) {
        let e = s.entity->0;
        let f = Entity { tf: Transform { y: moved(e.tf.y, e.speed.0 as int), ..e.tf }, ..e };
        Slot { entity: Some(f), doomed: f.tf.y > top, ..s }
    } else {
        s
    }
}

/// The store with the entity behind `h` replaced by `e`.
pub open spec fn replaced(s: StoreView, h: Handle, e: Entity) -> StoreView {
    StoreView {
        slots: s.slots.update(h.index as int, Slot { entity: Some(e), ..s.slots[h.index as int] }),
        ..s
    }
}

/// The store with the entity behind `h` marked for destruction.
pub open spec fn marked(s: StoreView, h: Handle) -> StoreView {
    StoreView {
        slots: s.slots.update(h.index as int, Slot { doomed: true, ..s.slots[h.index as int] }),
        ..s
    }
}

/// The store after laser `l` destroys enemy `e`: both marked, one enemy fewer.
pub open spec fn struck(s: StoreView, l: Handle, e: Handle) -> StoreView {
    StoreView { enemies: (s.enemies - 1) as nat, ..marked(marked(s, e), l) }
}

/// Slot `j` holds a standing enemy that laser record `l` overlaps.
pub open spec fn target(s: Seq<Slot>, l: Entity, j: int) -> bool {
    standing(s[j], Kind::Enemy) && hits(l, s[j].entity->0)
}

/// The entity behind `h` is standing and of kind `k`.
pub open spec fn standing_at(s: StoreView, h: Handle, k: Kind) -> bool {
    s.live(h) && !s.doomed(h) && s.entity(h).kind == k
}

/// Slot `a` holds no standing laser that overlaps a standing enemy.
pub open spec fn clear(s: Seq<Slot>, a: int) -> bool {
    standing(s[a], Kind::Laser) ==> forall|b: int|
        0 <= b < s.len() ==> !#[trigger] target(s, s[a].entity->0, b)
}

/// A slot after one tick of explosion ageing.
pub open spec fn aged(s: Slot) -> Slot {
    if standing(s, Kind::Explosion) {
        let e = s.entity->0;
        if e.life <= 1 {
            Slot { doomed: true, ..s }
        } else {
            Slot { entity: Some(Entity { life: (e.life - 1) as u32, ..e }), ..s }
        }
    } else {
        s
    }
}

/// One hit of a collision pass: the laser, the enemy it destroyed, and the
/// explosion request left in the enemy's place.
#[derive(Clone, Copy, Debug, PartialEq, Eq, Structural)]
pub struct Hit {
    pub laser: Handle,
    pub enemy: Handle,
    pub request: Handle,
}

/// Slot `j` held an enemy destroyed by one of the first `n` hits.
pub open spec fn killed_by(r: Seq<Hit>, n: int, j: int) -> bool {
    exists|v: int| 0 <= v < n && #[trigger] r[v].enemy.index == j
}

/// Slot `x` is one that a hit of `r` marked or filled.
pub open spec fn touched(r: Seq<Hit>, x: int) -> bool {
    exists|u: int|
        0 <= u < r.len() && (#[trigger] r[u].laser.index == x || r[u].enemy.index == x
            || r[u].request.index == x)
}

/// Hit `u` of a pass from `a` to `b`: a standing laser of `a` and the first
/// standing enemy of `a` that it overlaps and that no earlier hit took, both
/// marked in `b`, and the request at the enemy's place in a slot that was
/// free.
pub open spec fn hit_ok(a: StoreView, b: StoreView, r: Seq<Hit>, u: int) -> bool {
    let h = r[u];
    let l = h.laser.index as int;
    let e = h.enemy.index as int;
    let q = h.request.index as int;
    &&& l < a.slots.len() && e < a.slots.len() && q < b.slots.len()
    &&& standing(a.slots[l], Kind::Laser) && a.slots[l].generation == h.laser.generation
    &&& target(a.slots, a.slots[l].entity->0, e) && a.slots[e].generation == h.enemy.generation
    &&& !killed_by(r, u, e)
    &&& forall|j: int|
        0 <= j < e && #[trigger] target(a.slots, a.slots[l].entity->0, j) ==> killed_by(r, u, j)
    &&& b.slots[l] == Slot { doomed: true, ..a.slots[l] }
    &&& b.slots[e] == Slot { doomed: true, ..a.slots[e] }
    &&& b.slots[q] == Slot {
        generation: h.request.generation,
        entity: Some(request_at(a.slots[e].entity->0)),
        doomed: false,
    }
    &&& q < a.slots.len() ==> free(a.slots[q])
}

/// A collision pass from `a` to `b` over the lasers in slots below `n`, with
/// hits `r` in slot order of their lasers: every hit is as `hit_ok` says,
/// every laser without a hit overlapped only enemies that earlier lasers
/// took, and every slot no hit touched is unchanged.
pub open spec fn hit_pass_upto(a: StoreView, b: StoreView, r: Seq<Hit>, n: int) -> bool {
    &&& a.slots.len() <= b.slots.len()
    &&& b.enemies + r.len() == a.enemies
    &&& forall|u: int| 0 <= u < r.len() ==> #[trigger] hit_ok(a, b, r, u)
    &&& forall|u: int| 0 <= u < r.len() ==> #[trigger] r[u].laser.index < n
    &&& forall|u: int, v: int| 0 <= u < v < r.len() ==> r[u].laser.index < r[v].laser.index
    &&& forall|x: int|
        0 <= x < b.slots.len() && !#[trigger] touched(r, x) ==> x < a.slots.len() && b.slots[x]
            == a.slots[x]
    &&& forall|i: int, j: int|
        0 <= i < n && i < a.slots.len() && 0 <= j < a.slots.len() && standing(
            a.slots[i],
            Kind::Laser,
        ) && !touched(r, i) && #[trigger] target(a.slots, a.slots[i].entity->0, j) ==> exists|v: int|
            0 <= v < r.len() && #[trigger] r[v].enemy.index == j && r[v].laser.index < i
}

pub open spec fn hit_pass(a: StoreView, b: StoreView, r: Seq<Hit>) -> bool {
    hit_pass_upto(a, b, r, a.slots.len() as int)
}

/// A standing laser or enemy after part of a pass sits in a slot that no hit
/// touched.
proof fn lemma_standing_untouched(a: StoreView, b: StoreView, r: Seq<Hit>, n: int, x: int)
    requires
        hit_pass_upto(a, b, r, n),
        0 <= x < b.slots.len(),
        standing(b.slots[x], Kind::Laser) || standing(b.slots[x], Kind::Enemy),
    ensures
        !touched(r, x),
        x < a.slots.len(),
        b.slots[x] == a.slots[x],
{
    if touched(r, x) {
        let u = choose|u: int|
            0 <= u < r.len() && (#[trigger] r[u].laser.index == x || r[u].enemy.index == x
                || r[u].request.index == x);
        assert(hit_ok(a, b, r, u));
    }
}

/// A laser of `a` at or past `n` was touched by no hit of the pass so far.
proof fn lemma_laser_untouched(a: StoreView, b: StoreView, r: Seq<Hit>, n: int, x: int)
    requires
        hit_pass_upto(a, b, r, n),
        0 <= n <= x < a.slots.len(),
        standing(a.slots[x], Kind::Laser),
    ensures
        !touched(r, x),
        b.slots[x] == a.slots[x],
{
    if touched(r, x) {
        let u = choose|u: int|
            0 <= u < r.len() && (#[trigger] r[u].laser.index == x || r[u].enemy.index == x
                || r[u].request.index == x);
        assert(hit_ok(a, b, r, u));
        assert(r[u].laser.index < n);
    }
    assert(!touched(r, x));
}

/// An enemy of `a` that laser record `le` overlaps but that is no target in
/// `b` was taken by a hit so far.
proof fn lemma_gone_was_killed(a: StoreView, b: StoreView, r: Seq<Hit>, n: int, le: Entity, j: int)
    requires
        hit_pass_upto(a, b, r, n),
        0 <= j < a.slots.len(),
        target(a.slots, le, j),
        !target(b.slots, le, j),
    ensures
        killed_by(r, r.len() as int, j),
{
    if !touched(r, j) {
        assert(b.slots[j] == a.slots[j]);
    } else {
        let u = choose|u: int|
            0 <= u < r.len() && (#[trigger] r[u].laser.index == j || r[u].enemy.index == j
                || r[u].request.index == j);
        assert(hit_ok(a, b, r, u));
        assert(r[u].enemy.index == j);
    }
}

/// One more laser of the pass: it hits, as `laser_strike` says.
proof fn lemma_pass_hit(
    a: StoreView,
    b: StoreView,
    f: StoreView,
    r: Seq<Hit>,
    i: int,
    h: Handle,
    st: Strike,
)
    requires
        hit_pass_upto(a, b, r, i),
        0 <= i < a.slots.len(),
        standing(a.slots[i], Kind::Laser),
        h.index == i,
        h.generation == a.slots[i].generation,
        b.slots[i] == a.slots[i],
        st.enemy.index < b.slots.len(),
        st.enemy.generation == b.slots[st.enemy.index as int].generation,
        target(b.slots, a.slots[i].entity->0, st.enemy.index as int),
        forall|j: int| 0 <= j < st.enemy.index ==> !#[trigger] target(
            b.slots,
            a.slots[i].entity->0,
            j,
        ),
        placed(struck(b, h, st.enemy), f, st.request, request_at(b.entity(st.enemy))),
        f.enemies + 1 == b.enemies,
    ensures
        hit_pass_upto(a, f, r.push(Hit { laser: h, enemy: st.enemy, request: st.request }), i + 1),
{
    let hit = Hit { laser: h, enemy: st.enemy, request: st.request };
    let r2 = r.push(hit);
    let e = st.enemy.index as int;
    let q = st.request.index as int;
    let le = a.slots[i].entity->0;
    lemma_strike_frame(b, f, h, st);
    lemma_standing_untouched(a, b, r, i, e);
    assert(b.entity(h) == le);
    assert(r2[r.len() as int] == hit);
    assert forall|v: int| 0 <= v < r.len() implies #[trigger] r2[v] == r[v] by {}
    // the request's slot was free, so no earlier hit touched it
    if q < b.slots.len() {
        assert(free(b.slots[q]));
        if touched(r, q) {
            let u = choose|u: int|
                0 <= u < r.len() && (#[trigger] r[u].laser.index == q || r[u].enemy.index == q
                    || r[u].request.index == q);
            assert(hit_ok(a, b, r, u));
        }
        assert(!touched(r, q));
    }
    assert(!killed_by(r2, r.len() as int, e)) by {
        if killed_by(r2, r.len() as int, e) {
            let v = choose|v: int| 0 <= v < r.len() && #[trigger] r2[v].enemy.index == e;
            assert(r[v].enemy.index == e);
            assert(touched(r, e));
        }
    }
    assert forall|j: int| 0 <= j < e && #[trigger] target(a.slots, le, j) implies killed_by(
        r2,
        r.len() as int,
        j,
    ) by {
        assert(!target(b.slots, le, j));
        lemma_gone_was_killed(a, b, r, i, le, j);
        let v = choose|v: int| 0 <= v < r.len() && #[trigger] r[v].enemy.index == j;
        assert(r2[v].enemy.index == j);
    }
    assert(hit_ok(a, f, r2, r.len() as int));
    assert forall|u: int| 0 <= u < r2.len() implies #[trigger] hit_ok(a, f, r2, u) by {
        if u < r.len() {
            assert(hit_ok(a, b, r, u));
            assert forall|j: int| killed_by(r, u, j) == killed_by(r2, u, j) by {
                if killed_by(r, u, j) {
                    let v = choose|v: int| 0 <= v < u && #[trigger] r[v].enemy.index == j;
                    assert(r2[v].enemy.index == j);
                }
                if killed_by(r2, u, j) {
                    let v = choose|v: int| 0 <= v < u && #[trigger] r2[v].enemy.index == j;
                    assert(r[v].enemy.index == j);
                }
            }
            let hu = r[u];
            assert(hu.laser.index != i);
            assert(hu.enemy.index != e);
            assert(hu.request.index != e);
            assert(hu.request.index != q);
            assert(hu.enemy.index != q);
            assert(hu.laser.index != q);
        }
    }
    assert forall|x: int| 0 <= x < f.slots.len() && !#[trigger] touched(r2, x) implies x
        < a.slots.len() && f.slots[x] == a.slots[x] by {
        if touched(r, x) {
            let u = choose|u: int|
                0 <= u < r.len() && (#[trigger] r[u].laser.index == x || r[u].enemy.index == x
                    || r[u].request.index == x);
            assert(r2[u] == r[u]);
        }
        assert(!touched(r, x));
        assert(r2[r.len() as int].laser.index == i);
        assert(x != i && x != e && x != q);
    }
    assert forall|i2: int, j: int|
        0 <= i2 < i + 1 && i2 < a.slots.len() && 0 <= j < a.slots.len() && standing(a.slots[i2], Kind::Laser) && !touched(
            r2,
            i2,
        ) && #[trigger] target(a.slots, a.slots[i2].entity->0, j) implies exists|v: int|
        0 <= v < r2.len() && #[trigger] r2[v].enemy.index == j && r2[v].laser.index < i2 by {
        assert(r2[r.len() as int].laser.index == i);
        if touched(r, i2) {
            let u = choose|u: int|
                0 <= u < r.len() && (#[trigger] r[u].laser.index == i2 || r[u].enemy.index == i2
                    || r[u].request.index == i2);
            assert(r2[u] == r[u]);
        }
        let v = choose|v: int| 0 <= v < r.len() && #[trigger] r[v].enemy.index == j && r[v].laser.index < i2;
        assert(r2[v] == r[v]);
    }
}

/// One more laser of the pass: it is no standing laser, or it hits nothing.
proof fn lemma_pass_miss(a: StoreView, b: StoreView, r: Seq<Hit>, i: int)
    requires
        hit_pass_upto(a, b, r, i),
        0 <= i < a.slots.len(),
        standing(a.slots[i], Kind::Laser) ==> b.slots[i] == a.slots[i] && forall|j: int|
            0 <= j < b.slots.len() ==> !#[trigger] target(b.slots, a.slots[i].entity->0, j),
    ensures
        hit_pass_upto(a, b, r, i + 1),
{
    assert forall|i2: int, j: int|
        0 <= i2 < i + 1 && i2 < a.slots.len() && 0 <= j < a.slots.len() && standing(
            a.slots[i2],
            Kind::Laser,
        ) && !touched(r, i2) && #[trigger] target(a.slots, a.slots[i2].entity->0, j) implies exists|v: int|
        0 <= v < r.len() && #[trigger] r[v].enemy.index == j && r[v].laser.index < i2 by {
        if i2 == i {
            assert(!target(b.slots, a.slots[i].entity->0, j));
            lemma_gone_was_killed(a, b, r, i, a.slots[i].entity->0, j);
            let v = choose|v: int| 0 <= v < r.len() && #[trigger] r[v].enemy.index == j;
            assert(r[v].laser.index < i);
        }
    }
}

/// One request of an explosion pass and the explosion made from it.
#[derive(Clone, Copy, Debug, PartialEq, Eq, Structural)]
pub struct Conversion {
    pub request: Handle,
    pub explosion: Handle,
}

/// Slot `x` is one that a conversion of `r` marked or filled.
pub open spec fn converted(r: Seq<Conversion>, x: int) -> bool {
    exists|u: int|
        0 <= u < r.len() && (#[trigger] r[u].request.index == x || r[u].explosion.index == x)
}

/// Conversion `u` of a pass from `a` to `b`: a standing request of `a`,
/// marked in `b`, and its explosion in a slot that was free.
pub open spec fn conversion_ok(a: StoreView, b: StoreView, r: Seq<Conversion>, u: int, sprite: Sprite) -> bool {
    let q = r[u].request.index as int;
    let x = r[u].explosion.index as int;
    &&& q < a.slots.len() && x < b.slots.len()
    &&& standing(a.slots[q], Kind::ExplosionRequest) && a.slots[q].generation == r[u].request.generation
    &&& b.slots[q] == Slot { doomed: true, ..a.slots[q] }
    &&& b.slots[x] == Slot {
        generation: r[u].explosion.generation,
        entity: Some(explosion_from(a.slots[q].entity->0, sprite)),
        doomed: false,
    }
    &&& x < a.slots.len() ==> free(a.slots[x])
}

/// An explosion pass from `a` to `b` over the slots below `n`: every
/// standing request there is converted once, in slot order, into an
/// explosion with `sprite`, and every slot no conversion touched is
/// unchanged.
pub open spec fn conversion_pass_upto(a: StoreView, b: StoreView, r: Seq<Conversion>, n: int, sprite: Sprite) -> bool {
    &&& a.slots.len() <= b.slots.len()
    &&& b.enemies == a.enemies
    &&& forall|u: int| 0 <= u < r.len() ==> #[trigger] conversion_ok(a, b, r, u, sprite)
    &&& forall|u: int| 0 <= u < r.len() ==> #[trigger] r[u].request.index < n
    &&& forall|u: int, v: int| 0 <= u < v < r.len() ==> r[u].request.index < r[v].request.index
    &&& forall|x: int|
        0 <= x < b.slots.len() && !#[trigger] converted(r, x) ==> x < a.slots.len() && b.slots[x]
            == a.slots[x]
    &&& forall|q: int|
        0 <= q < n && q < a.slots.len() && #[trigger] standing(a.slots[q], Kind::ExplosionRequest)
            ==> converted(r, q)
}

pub open spec fn conversion_pass(a: StoreView, b: StoreView, r: Seq<Conversion>, sprite: Sprite) -> bool {
    conversion_pass_upto(a, b, r, a.slots.len() as int, sprite)
}

/// A standing request after part of an explosion pass, at or past `n`, sits
/// in a slot that no conversion touched.
proof fn lemma_request_untouched(a: StoreView, b: StoreView, r: Seq<Conversion>, n: int, sprite: Sprite, x: int)
    requires
        conversion_pass_upto(a, b, r, n, sprite),
        0 <= n <= x < b.slots.len(),
        standing(b.slots[x], Kind::ExplosionRequest),
    ensures
        !converted(r, x),
        x < a.slots.len(),
        b.slots[x] == a.slots[x],
{
    if converted(r, x) {
        let u = choose|u: int|
            0 <= u < r.len() && (#[trigger] r[u].request.index == x || r[u].explosion.index == x);
        assert(conversion_ok(a, b, r, u, sprite));
    }
    assert(!converted(r, x));
}

/// One more slot of the explosion pass.
proof fn lemma_conversion_step(
    a: StoreView,
    b: StoreView,
    f: StoreView,
    r: Seq<Conversion>,
    i: int,
    sprite: Sprite,
    c: Option<Conversion>,
)
    requires
        conversion_pass_upto(a, b, r, i, sprite),
        0 <= i < a.slots.len(),
        c is None ==> f == b && !standing(b.slots[i], Kind::ExplosionRequest),
        c is Some ==> {
            let h = c->0.request;
            &&& h.index == i
            &&& h.generation == b.slots[i].generation
            &&& standing(b.slots[i], Kind::ExplosionRequest)
            &&& placed(
                marked(b, h),
                f,
                c->0.explosion,
                explosion_from(b.slots[i].entity->0, sprite),
            )
        },
    ensures
        conversion_pass_upto(a, f, if c is Some { r.push(c->0) } else { r }, i + 1, sprite),
{
    if standing(a.slots[i], Kind::ExplosionRequest) {
        if converted(r, i) {
            let u = choose|u: int|
                0 <= u < r.len() && (#[trigger] r[u].request.index == i || r[u].explosion.index == i);
            assert(conversion_ok(a, b, r, u, sprite));
            assert(r[u].request.index < i);
        }
        assert(!converted(r, i));
        assert(b.slots[i] == a.slots[i]);
    }
    if c is Some {
        let cv = c->0;
        let r2 = r.push(cv);
        let x = cv.explosion.index as int;
        lemma_request_untouched(a, b, r, i, sprite, i);
        assert(r2[r.len() as int] == cv);
        assert forall|v: int| 0 <= v < r.len() implies #[trigger] r2[v] == r[v] by {}
        if x < b.slots.len() {
            assert(free(b.slots[x]));
            if converted(r, x) {
                let u = choose|u: int|
                    0 <= u < r.len() && (#[trigger] r[u].request.index == x || r[u].explosion.index == x);
                assert(conversion_ok(a, b, r, u, sprite));
            }
            assert(!converted(r, x));
        }
        assert(conversion_ok(a, f, r2, r.len() as int, sprite));
        assert forall|u: int| 0 <= u < r2.len() implies #[trigger] conversion_ok(a, f, r2, u, sprite) by {
            if u < r.len() {
                assert(conversion_ok(a, b, r, u, sprite));
                assert(r[u].request.index != i);
                assert(r[u].explosion.index != i);
                assert(r[u].request.index != x);
                assert(r[u].explosion.index != x);
            }
        }
        assert forall|y: int| 0 <= y < f.slots.len() && !#[trigger] converted(r2, y) implies y
            < a.slots.len() && f.slots[y] == a.slots[y] by {
            if converted(r, y) {
                let u = choose|u: int|
                    0 <= u < r.len() && (#[trigger] r[u].request.index == y || r[u].explosion.index == y);
                assert(r2[u] == r[u]);
            }
            assert(y != i && y != x);
        }
        assert forall|q: int|
            0 <= q < i + 1 && q < a.slots.len() && #[trigger] standing(a.slots[q], Kind::ExplosionRequest)
                implies converted(r2, q) by {
            if q < i {
                let u = choose|u: int|
                    0 <= u < r.len() && (#[trigger] r[u].request.index == q || r[u].explosion.index == q);
                assert(r2[u] == r[u]);
            } else {
                assert(r2[r.len() as int].request.index == q);
            }
        }
    }
}

/// The player step of a tick, as `World::move_player` does it.
pub open spec fn player_step(a: WorldView, b: WorldView, left: bool, right: bool) -> bool {
    let live = a.player is Some && a.store.live(a.player->0);
    &&& b == a.with_store(b.store)
    &&& live ==> b.store == replaced(
        a.store,
        a.player->0,
        player_moved(a.store.entity(a.player->0), left, right),
    )
    &&& !live ==> b == a
}

/// The laser step of a tick, as `World::move_lasers` does it.
pub open spec fn flight_step(a: WorldView, b: WorldView) -> bool {
    &&& b == a.with_store(b.store)
    &&& b.store.enemies == a.store.enemies
    &&& b.store.slots.len() == a.store.slots.len()
    &&& forall|i: int|
        0 <= i < a.store.slots.len() ==> #[trigger] b.store.slots[i] == flown(a.store.slots[i], a.top())
}

/// The trigger step of a tick, as `World::fire` does it, `r` being the
/// laser fired.
pub open spec fn trigger_step(a: WorldView, b: WorldView, held: bool, r: Option<Handle>) -> bool {
    let live = a.player is Some && a.store.live(a.player->0);
    &&& b == a.with_store(b.store)
    &&& !live ==> r is None && b == a
    &&& live ==> {
        let p = a.player->0;
        let pe = a.store.entity(p);
        let step = fire_step(pe.ready, held);
        let mid = replaced(a.store, p, Entity { ready: step.1, ..pe });
        &&& (r is Some <==> step.0)
        &&& r is None ==> b.store == mid
        &&& r is Some ==> placed(
            mid,
            b.store,
            r->0,
            ship(Kind::Laser, pe.tf.x, pe.tf.y, LASER_Z, a.materials.laser, false),
        )
    }
}

/// The spawn step of a tick: the timer counts down, and when it is due and
/// the budget allows, enemy `r` is placed at `x` on the spawn line.
pub open spec fn spawn_step(a: WorldView, b: WorldView, x: i64, r: Option<Handle>) -> bool {
    let due = a.spawn_countdown == 0;
    let go = due && a.store.enemies < a.max_enemies;
    let t = WorldView {
        spawn_countdown: if due {
            (a.spawn_interval - 1) as nat
        } else {
            (a.spawn_countdown - 1) as nat
        },
        ..a
    };
    &&& b == t.with_store(b.store)
    &&& go ==> r is Some && placed(
        a.store,
        b.store,
        r->0,
        ship(Kind::Enemy, x, (a.half_h - ENEMY_DROP) as i64, ENEMY_Z, a.materials.enemy, false),
    )
    &&& !go ==> r is None && b.store == a.store
}

/// The ageing step of a tick, as `World::age_explosions` does it.
pub open spec fn aging_step(a: WorldView, b: WorldView) -> bool {
    &&& b == a.with_store(b.store)
    &&& b.store.enemies == a.store.enemies
    &&& b.store.slots.len() == a.store.slots.len()
    &&& forall|i: int| 0 <= i < a.store.slots.len() ==> #[trigger] b.store.slots[i] == aged(a.store.slots[i])
}

/// The commit at the end of a tick.
pub open spec fn commit_step(a: WorldView, b: WorldView) -> bool {
    &&& b == a.with_store(b.store)
    &&& b.store.enemies == a.store.enemies
    &&& b.store.slots.len() == a.store.slots.len()
    &&& forall|i: int|
        0 <= i < a.store.slots.len() ==> #[trigger] b.store.slots[i] == committed(a.store.slots[i])
}

/// A whole tick from `o` to `f` through the views `v`, one after each
/// system, in order: player, lasers, trigger, spawn, hits, explosions,
/// ageing, and the commit.
pub open spec fn tick_chain(
    o: WorldView,
    f: WorldView,
    input: Input,
    x: i64,
    v: Seq<WorldView>,
    fired: Option<Handle>,
    spawned: Option<Handle>,
    hits: Seq<Hit>,
    conversions: Seq<Conversion>,
) -> bool {
    &&& v.len() == 7
    &&& player_step(o, v[0], input.left, input.right)
    &&& flight_step(v[0], v[1])
    &&& trigger_step(v[1], v[2], input.fire, fired)
    &&& spawn_step(v[2], v[3], x, spawned)
    &&& v[4] == v[3].with_store(v[4].store) && hit_pass(v[3].store, v[4].store, hits)
    &&& v[5] == v[4].with_store(v[5].store) && conversion_pass(
        v[4].store,
        v[5].store,
        conversions,
        v[4].materials.explosion,
    )
    &&& aging_step(v[5], v[6])
    &&& commit_step(v[6], f)
}

/// What a strike leaves alone: every standing laser or enemy after it was
/// there before, in the same slot, and is neither of the two it removed.
proof fn lemma_strike_frame(b: StoreView, f: StoreView, l: Handle, st: Strike)
    requires
        l.index < b.slots.len(),
        st.enemy.index < b.slots.len(),
        placed(struck(b, l, st.enemy), f, st.request, request_at(b.entity(st.enemy))),
    ensures
        b.slots.len() <= f.slots.len(),
        forall|x: int|
            0 <= x < f.slots.len() && (standing(#[trigger] f.slots[x], Kind::Laser) || standing(
                f.slots[x],
                Kind::Enemy,
            )) ==> x < b.slots.len() && x != l.index && x != st.enemy.index && f.slots[x]
                == b.slots[x],
        forall|x: int|
            0 <= x < b.slots.len() && x != l.index && x != st.enemy.index && occupied(
                #[trigger] b.slots[x],
            ) ==> f.slots[x] == b.slots[x],
{
}

/// Marking a standing entity takes one standing entity of its kind away.
proof fn lemma_marked_counts(s: StoreView, h: Handle, k: Kind)
    requires
        s.live(h),
        !s.doomed(h),
    ensures
        count_standing(marked(s, h).slots, k) + (if s.entity(h).kind == k {
            1nat
        } else {
            0nat
        }) == count_standing(s.slots, k),
{
    lemma_count_update(s.slots, h.index as int, marked(s, h).slots[h.index as int], k);
}

/// The simulation context: the entity store, the render handles, the play
/// area and the spawn timer, created once by `setup` and passed to every
/// system.
pub struct World {
    store: Store,
    materials: Materials,
    half_w: i64,
    half_h: i64,
    max_enemies: usize,
    spawn_interval: u32,
    spawn_countdown: u32,
    player: Option<Handle>,
}

impl View for World {
    type V = WorldView;

    closed spec fn view(&self) -> WorldView {
        WorldView {
            store: self.store@,
            materials: self.materials,
            half_w: self.half_w as int,
            half_h: self.half_h as int,
            max_enemies: self.max_enemies as nat,
            spawn_interval: self.spawn_interval as nat,
            spawn_countdown: self.spawn_countdown as nat,
            player: self.player,
        }
    }
}

/// Builds the context for a play area of `width` by `height` pixels, centred
/// on the origin, with no entity yet.
pub fn setup(materials: Materials, width: u32, height: u32) -> (r: World)
    ensures
        r@.inv(),
        r@.store.slots.len() == 0,
        r@.store.enemies == 0,
        r@.materials == materials,
        r@.half_w == width * UNITS_PER_PIXEL / 2,
        r@.half_h == height * UNITS_PER_PIXEL / 2,
        r@.max_enemies == MAX_ENEMIES,
        r@.spawn_interval == ENEMY_SPAWN_TICKS,
        r@.spawn_countdown == ENEMY_SPAWN_TICKS - 1,
        r@.player is None,
{
    World {
        store: Store::new(),
        materials,
        half_w: (width as i64) * 30,
        half_h: (height as i64) * 30,
        max_enemies: MAX_ENEMIES,
        spawn_interval: ENEMY_SPAWN_TICKS,
        spawn_countdown: ENEMY_SPAWN_TICKS - 1,
        player: None,
    }
}

impl World {
    pub fn store(&self) -> (r: &Store)
        ensures
            r@ == self@.store,
    {
        &self.store
    }

    pub fn get(&self, h: Handle) -> (r: Option<Entity>)
        ensures
            r is Some <==> self@.store.live(h),
            r is Some ==> r->0 == self@.store.entity(h),
    {
        self.store.get(h)
    }

    pub fn active_enemies(&self) -> (r: usize)
        ensures
            r == self@.store.enemies,
    {
        self.store.active_enemies()
    }

    pub fn player(&self) -> (r: Option<Handle>)
        ensures
            r == self@.player,
    {
        self.player
    }

    /// Maps a uniform random draw to an x within the play area, for the
    /// enemy spawn line.
    pub fn spawn_x(&self, draw: u64) -> (r: i64)
        requires
            self@.inv(),
        ensures
            -self@.half_w <= r <= self@.half_w,
            r == (draw as int) % (2 * self@.half_w + 1) - self@.half_w,
    {
        let span: u64 = 2 * (self.half_w as u64) + 1;
        let m = draw % span;
        (m as i64) - self.half_w
    }

    /// Places the player above the bottom edge, ready to fire. It is a
    /// programming error to call this twice.
    pub fn spawn_player(&mut self) -> (h: Handle)
        requires
            old(self)@.inv(),
            old(self)@.player is None,
        ensures
            final(self)@.inv(),
            final(self)@.player == Some(h),
            placed(
                old(self)@.store,
                final(self)@.store,
                h,
                ship(
                    Kind::Player,
                    0,
                    (old(self)@.bottom() + PLAYER_LIFT) as i64,
                    PLAYER_Z,
                    old(self)@.materials.player,
                    true,
                ),
            ),
            final(self)@ == old(self)@.with_store(final(self)@.store).with_player(Some(h)),
    {
        let e = Entity {
            kind: Kind::Player,
            tf: Transform {
                x: 0,
                y: -self.half_h + PLAYER_LIFT,
                z: PLAYER_Z,
                sx_pct: SCALE_PCT,
                sy_pct: SCALE_PCT,
            },
            sprite: self.materials.player,
            speed: Speed::default(),
            ready: true,
            life: 0,
        };
        let h = self.store.create(e);
        self.player = Some(h);
        h
    }

    /// Spawns a laser at `(x, y)`.
    pub fn spawn_laser(&mut self, x: i64, y: i64) -> (h: Handle)
        requires
            old(self)@.inv(),
        ensures
            final(self)@.inv(),
            placed(
                old(self)@.store,
                final(self)@.store,
                h,
                ship(Kind::Laser, x, y, LASER_Z, old(self)@.materials.laser, false),
            ),
            final(self)@ == old(self)@.with_store(final(self)@.store),
            generations_grow(old(self)@.store.slots, final(self)@.store.slots),
    {
        let e = Entity {
            kind: Kind::Laser,
            tf: Transform { x, y, z: LASER_Z, sx_pct: SCALE_PCT, sy_pct: SCALE_PCT },
            sprite: self.materials.laser,
            speed: Speed::default(),
            ready: false,
            life: 0,
        };
        self.store.create(e)
    }

    /// Spawns an enemy at `(x, y)` unless the count of active enemies has
    /// reached its budget, in which case nothing happens.
    pub fn spawn_enemy(&mut self, x: i64, y: i64) -> (r: Option<Handle>)
        requires
            old(self)@.inv(),
        ensures
            final(self)@.inv(),
            r is None <==> old(self)@.store.enemies >= old(self)@.max_enemies,
            r is None ==> final(self)@ == old(self)@,
            r is Some ==> placed(
                old(self)@.store,
                final(self)@.store,
                r->0,
                ship(Kind::Enemy, x, y, ENEMY_Z, old(self)@.materials.enemy, false),
            ),
            final(self)@ == old(self)@.with_store(final(self)@.store),
            generations_grow(old(self)@.store.slots, final(self)@.store.slots),
    {
        if self.store.active_enemies() >= self.max_enemies {
            return None;
        }
        let e = Entity {
            kind: Kind::Enemy,
            tf: Transform { x, y, z: ENEMY_Z, sx_pct: SCALE_PCT, sy_pct: SCALE_PCT },
            sprite: self.materials.enemy,
            speed: Speed::default(),
            ready: false,
            life: 0,
        };
        Some(self.store.create(e))
    }

    /// Moves the player by its speed, left, right or not at all, with no
    /// clamping to the play area.
    pub fn move_player(&mut self, left: bool, right: bool)
        requires
            old(self)@.inv(),
        ensures
            final(self)@.inv(),
            final(self)@ == old(self)@.with_store(final(self)@.store),
            old(self)@.player is Some && old(self)@.store.live(old(self)@.player->0)
                ==> final(self)@.store == replaced(
                old(self)@.store,
                old(self)@.player->0,
                player_moved(old(self)@.store.entity(old(self)@.player->0), left, right),
            ),
            !(old(self)@.player is Some && old(self)@.store.live(old(self)@.player->0))
                ==> final(self)@ == old(self)@,
            generations_grow(old(self)@.store.slots, final(self)@.store.slots),
    {
        if let Some(p) = self.player {
            if let Some(e) = self.store.get(p) {
                let v = e.speed.0 as i64;
                let d: i64 = if right && !left {
                    v
                } else if left && !right {
                    -v
                } else {
                    0
                };
                let x = shift(e.tf.x, d);
                let f = Entity { tf: Transform { x, ..e.tf }, ..e };
                assert(f == player_moved(e, left, right));
                self.store.update(p, f);
                proof {
                    assert(final(self)@.store.slots =~= replaced(old(self)@.store, p, f).slots);
                }
            }
        }
    }

    /// Moves every standing laser up by its speed; one that leaves the play
    /// area through the top is marked for destruction.
    pub fn move_lasers(&mut self)
        requires
            old(self)@.inv(),
        ensures
            final(self)@.inv(),
            final(self)@ == old(self)@.with_store(final(self)@.store),
            final(self)@.store.enemies == old(self)@.store.enemies,
            final(self)@.store.slots.len() == old(self)@.store.slots.len(),
            forall|i: int|
                0 <= i < old(self)@.store.slots.len() ==> #[trigger] final(self)@.store.slots[i]
                    == flown(old(self)@.store.slots[i], old(self)@.top()),
            generations_grow(old(self)@.store.slots, final(self)@.store.slots),
    {
        let n = self.store.len();
        let mut i: usize = 0;
        while i < n
            invariant
                self@.inv(),
                self@ == old(self)@.with_store(self@.store),
                self@.store.enemies == old(self)@.store.enemies,
                n == self@.store.slots.len(),
                n == old(self)@.store.slots.len(),
                i <= n,
                forall|j: int| 0 <= j < i ==> #[trigger] self@.store.slots[j] == flown(
                    old(self)@.store.slots[j],
                    old(self)@.top(),
                ),
                forall|j: int| i <= j < n ==> #[trigger] self@.store.slots[j]
                    == old(self)@.store.slots[j],
            decreases n - i,
        {
            let s = self.store.slot(i);
            if !s.doomed {
                if let Some(e) = s.entity {
                    if e.kind == Kind::Laser {
                        let h = Handle { index: i, generation: s.generation };
                        let y = shift(e.tf.y, e.speed.0 as i64);
                        let f = Entity { tf: Transform { y, ..e.tf }, ..e };
                        self.store.update(h, f);
                        if y > self.half_h {
                            self.store.destroy(h);
                        }
                    }
                }
            }
            i = i + 1;
        }
        proof {
            assert(self@.store.slots.len() == n);
        }
    }

    /// Handles the fire trigger: a ready player that holds it fires one laser
    /// from its own position and is no longer ready until the trigger is
    /// released.
    pub fn fire(&mut self, held: bool) -> (r: Option<Handle>)
        requires
            old(self)@.inv(),
        ensures
            final(self)@.inv(),
            final(self)@ == old(self)@.with_store(final(self)@.store),
            !(old(self)@.player is Some && old(self)@.store.live(old(self)@.player->0))
                ==> r is None && final(self)@ == old(self)@,
            old(self)@.player is Some && old(self)@.store.live(old(self)@.player->0) ==> {
                let p = old(self)@.player->0;
                let pe = old(self)@.store.entity(p);
                let step = fire_step(pe.ready, held);
                let mid = replaced(old(self)@.store, p, Entity { ready: step.1, ..pe });
                &&& (r is Some <==> step.0)
                &&& r is None ==> final(self)@.store == mid
                &&& r is Some ==> placed(
                    mid,
                    final(self)@.store,
                    r->0,
                    ship(Kind::Laser, pe.tf.x, pe.tf.y, LASER_Z, old(self)@.materials.laser, false),
                )
            },
            generations_grow(old(self)@.store.slots, final(self)@.store.slots),
    {
        if let Some(p) = self.player {
            if let Some(e) = self.store.get(p) {
                let shoot = e.ready && held;
                let f = Entity { ready: !held, ..e };
                self.store.update(p, f);
                proof {
                    assert(self@.store.slots =~= replaced(old(self)@.store, p, f).slots);
                }
                if shoot {
                    return Some(self.spawn_laser(e.tf.x, e.tf.y));
                }
            }
        }
        None
    }

    /// Tests laser `laser` against the enemies in slot order. The first
    /// standing enemy it overlaps is destroyed together with the laser, and
    /// an explosion request takes the enemy's place; the enemy count drops
    /// by one. With no such enemy, or a laser that is not standing, nothing
    /// changes.
    pub fn laser_strike(&mut self, laser: Handle) -> (r: Option<Strike>)
        requires
            old(self)@.inv(),
        ensures
            final(self)@.inv(),
            final(self)@ == old(self)@.with_store(final(self)@.store),
            r is None <==> !standing_at(old(self)@.store, laser, Kind::Laser) || forall|j: int|
                0 <= j < old(self)@.store.slots.len() ==> !#[trigger] target(
                    old(self)@.store.slots,
                    old(self)@.store.entity(laser),
                    j,
                ),
            r is None ==> final(self)@ == old(self)@,
            r is Some ==> {
                let e = r->0.enemy;
                let s = old(self)@.store;
                &&& target(s.slots, s.entity(laser), e.index as int)
                &&& e.index < s.slots.len()
                &&& final(self)@.store.enemies + 1 == s.enemies
                &&& e.generation == s.slots[e.index as int].generation
                &&& forall|j: int| 0 <= j < e.index ==> !#[trigger] target(
                    s.slots,
                    s.entity(laser),
                    j,
                )
                &&& placed(
                    struck(s, laser, e),
                    final(self)@.store,
                    r->0.request,
                    request_at(s.entity(e)),
                )
            },
    {
        let le = match self.store.get(laser) {
            Some(le) => le,
            None => {
                return None;
            },
        };
        if le.kind != Kind::Laser || self.store.slot(laser.index).doomed {
            return None;
        }
        let n = self.store.len();
        let mut j: usize = 0;
        while j < n
            invariant
                self@ == old(self)@,
                self@.inv(),
                standing_at(self@.store, laser, Kind::Laser),
                le == self@.store.entity(laser),
                n == self@.store.slots.len(),
                j <= n,
                forall|k: int| 0 <= k < j ==> !#[trigger] target(self@.store.slots, le, k),
            decreases n - j,
        {
            let s = self.store.slot(j);
            if !s.doomed {
                if let Some(en) = s.entity {
                    if en.kind == Kind::Enemy && collide(&le, &en) {
                        let eh = Handle { index: j, generation: s.generation };
                        assert(target(old(self)@.store.slots, le, j as int));
                        self.store.destroy(eh);
                        self.store.destroy(laser);
                        proof {
                            assert(self@.store.slots =~= struck(old(self)@.store, laser, eh).slots);
                        }
                        let req = Entity {
                            kind: Kind::ExplosionRequest,
                            speed: Speed(0),
                            ready: false,
                            life: 0,
                            ..en
                        };
                        let q = self.store.create(req);
                        return Some(Strike { enemy: eh, request: q });
                    }
                }
            }
            j = j + 1;
        }
        None
    }

    /// Runs every standing laser against the enemies, in slot order, as
    /// `laser_strike` does, and returns the hits in that order. Each hit
    /// costs one laser and the first enemy it overlaps that is still
    /// standing, and leaves one explosion request in the enemy's place.
    /// Nothing else changes. Afterwards no standing laser overlaps a
    /// standing enemy.
    pub fn laser_hit_enemy(&mut self) -> (r: Vec<Hit>)
        requires
            old(self)@.inv(),
        ensures
            final(self)@.inv(),
            final(self)@ == old(self)@.with_store(final(self)@.store),
            hit_pass(old(self)@.store, final(self)@.store, r@),
            final(self)@.store.enemies + r@.len() == old(self)@.store.enemies,
            count_standing(final(self)@.store.slots, Kind::Laser) + r@.len() == count_standing(
                old(self)@.store.slots,
                Kind::Laser,
            ),
            count_standing(final(self)@.store.slots, Kind::ExplosionRequest) == count_standing(
                old(self)@.store.slots,
                Kind::ExplosionRequest,
            ) + r@.len(),
            forall|a: int| 0 <= a < final(self)@.store.slots.len() ==> #[trigger] clear(final(self)@.store.slots, a),
            forall|a: int|
                0 <= a < old(self)@.store.slots.len() && occupied(
                    #[trigger] old(self)@.store.slots[a],
                ) && !standing(old(self)@.store.slots[a], Kind::Laser) && !standing(
                    old(self)@.store.slots[a],
                    Kind::Enemy,
                ) ==> final(self)@.store.slots[a] == old(self)@.store.slots[a],
            generations_grow(old(self)@.store.slots, final(self)@.store.slots),
    {
        let n = self.store.len();
        let mut i: usize = 0;
        let mut r: Vec<Hit> = Vec::new();
        while i < n
            invariant
                self@.inv(),
                self@ == old(self)@.with_store(self@.store),
                self@.store.enemies + r@.len() == old(self)@.store.enemies,
                r@.len() <= i <= n,
                n == old(self)@.store.slots.len(),
                hit_pass_upto(old(self)@.store, self@.store, r@, i as int),
                n <= self@.store.slots.len(),
                forall|a: int|
                    0 <= a < self@.store.slots.len() && (a < i || n <= a) ==> #[trigger] clear(self@.store.slots, a),
                count_standing(self@.store.slots, Kind::Laser) + r@.len() == count_standing(
                    old(self)@.store.slots,
                    Kind::Laser,
                ),
                count_standing(self@.store.slots, Kind::ExplosionRequest) == count_standing(
                    old(self)@.store.slots,
                    Kind::ExplosionRequest,
                ) + r@.len(),
                forall|a: int|
                    0 <= a < old(self)@.store.slots.len() && occupied(
                        #[trigger] old(self)@.store.slots[a],
                    ) && !standing(old(self)@.store.slots[a], Kind::Laser) && !standing(
                        old(self)@.store.slots[a],
                        Kind::Enemy,
                    ) ==> self@.store.slots[a] == old(self)@.store.slots[a],
                generations_grow(old(self)@.store.slots, self@.store.slots),
            decreases n - i,
        {
            let s = self.store.slot(i);
            let ghost b = self@.store;
            proof {
                if standing(old(self)@.store.slots[i as int], Kind::Laser) {
                    lemma_laser_untouched(old(self)@.store, b, r@, i as int, i as int);
                }
            }
            let mut hit_now = false;
            if !s.doomed {
                if let Some(e) = s.entity {
                    if e.kind == Kind::Laser {
                        let h = Handle { index: i, generation: s.generation };
                        let hit = self.laser_strike(h);
                        if let Some(st) = hit {
                            proof {
                                let f = self@.store;
                                lemma_strike_frame(b, f, h, st);
                                crate::laws::lemma_strike_counts(b, f, h, st);
                                lemma_standing_untouched(old(self)@.store, b, r@, i as int, i as int);
                                lemma_pass_hit(old(self)@.store, b, f, r@, i as int, h, st);
                                assert forall|a: int|
                                    0 <= a < f.slots.len() && (a < i + 1 || n <= a) implies #[trigger] clear(
                                    f.slots,
                                    a,
                                ) by {
                                    if standing(f.slots[a], Kind::Laser) {
                                        assert(clear(b.slots, a));
                                        assert forall|c: int| 0 <= c < f.slots.len() implies !#[trigger] target(
                                            f.slots,
                                            f.slots[a].entity->0,
                                            c,
                                        ) by {
                                            if standing(f.slots[c], Kind::Enemy) {
                                                assert(!target(b.slots, b.slots[a].entity->0, c));
                                            }
                                        }
                                    }
                                }
                            }
                            r.push(Hit { laser: h, enemy: st.enemy, request: st.request });
                            hit_now = true;
                        }
                    }
                }
            }
            proof {
                if !hit_now {
                    lemma_pass_miss(old(self)@.store, self@.store, r@, i as int);
                }
            }
            i = i + 1;
        }
        r
    }

    /// Turns a standing explosion request into an explosion at the same
    /// place, and marks the request for destruction. Anything else is left
    /// alone.
    pub fn materialize(&mut self, req: Handle) -> (r: Option<Handle>)
        requires
            old(self)@.inv(),
        ensures
            final(self)@.inv(),
            final(self)@ == old(self)@.with_store(final(self)@.store),
            r is Some <==> standing_at(old(self)@.store, req, Kind::ExplosionRequest),
            r is None ==> final(self)@ == old(self)@,
            r is Some ==> placed(
                marked(old(self)@.store, req),
                final(self)@.store,
                r->0,
                explosion_from(old(self)@.store.entity(req), old(self)@.materials.explosion),
            ),
    {
        let q = match self.store.get(req) {
            Some(q) => q,
            None => {
                return None;
            },
        };
        if q.kind != Kind::ExplosionRequest || self.store.slot(req.index).doomed {
            return None;
        }
        self.store.destroy(req);
        let e = Entity {
            kind: Kind::Explosion,
            tf: Transform { sx_pct: 100, sy_pct: 100, ..q.tf },
            sprite: self.materials.explosion,
            speed: Speed(0),
            ready: false,
            life: EXPLOSION_TICKS,
        };
        Some(self.store.create(e))
    }

    /// Turns every standing explosion request into an explosion, in slot
    /// order, as `materialize` does, and returns the pairs. Each request is
    /// marked for destruction, so none stands afterwards. Nothing else
    /// changes.
    pub fn explosion_to_spawn(&mut self) -> (r: Vec<Conversion>)
        requires
            old(self)@.inv(),
        ensures
            final(self)@.inv(),
            final(self)@ == old(self)@.with_store(final(self)@.store),
            final(self)@.store.enemies == old(self)@.store.enemies,
            conversion_pass(old(self)@.store, final(self)@.store, r@, old(self)@.materials.explosion),
            forall|a: int|
                0 <= a < final(self)@.store.slots.len() ==> !standing(
                    #[trigger] final(self)@.store.slots[a],
                    Kind::ExplosionRequest,
                ),
            forall|a: int|
                0 <= a < old(self)@.store.slots.len() && standing(
                    #[trigger] old(self)@.store.slots[a],
                    Kind::ExplosionRequest,
                ) ==> final(self)@.store.slots[a].doomed && final(self)@.store.slots[a].entity
                    == old(self)@.store.slots[a].entity,
            r@.len() == count_standing(old(self)@.store.slots, Kind::ExplosionRequest),
            count_standing(final(self)@.store.slots, Kind::Explosion) == count_standing(
                old(self)@.store.slots,
                Kind::Explosion,
            ) + r@.len(),
            forall|a: int|
                0 <= a < old(self)@.store.slots.len() && occupied(
                    #[trigger] old(self)@.store.slots[a],
                ) && !standing(old(self)@.store.slots[a], Kind::ExplosionRequest)
                    ==> final(self)@.store.slots[a] == old(self)@.store.slots[a],
            generations_grow(old(self)@.store.slots, final(self)@.store.slots),
    {
        let n = self.store.len();
        let mut i: usize = 0;
        let mut k: usize = 0;
        let mut r: Vec<Conversion> = Vec::new();
        while i < n
            invariant
                self@.inv(),
                self@ == old(self)@.with_store(self@.store),
                self@.store.enemies == old(self)@.store.enemies,
                k <= i <= n,
                k == r@.len(),
                conversion_pass_upto(old(self)@.store, self@.store, r@, i as int, self.materials.explosion),
                n == old(self)@.store.slots.len(),
                n <= self@.store.slots.len(),
                forall|a: int|
                    0 <= a < self@.store.slots.len() && (a < i || n <= a) ==> !standing(
                        #[trigger] self@.store.slots[a],
                        Kind::ExplosionRequest,
                    ),
                forall|a: int|
                    0 <= a < n && standing(
                        #[trigger] old(self)@.store.slots[a],
                        Kind::ExplosionRequest,
                    ) ==> if a < i {
                        self@.store.slots[a].doomed && self@.store.slots[a].entity
                            == old(self)@.store.slots[a].entity
                    } else {
                        self@.store.slots[a] == old(self)@.store.slots[a]
                    },
                k + count_standing(self@.store.slots, Kind::ExplosionRequest) == count_standing(
                    old(self)@.store.slots,
                    Kind::ExplosionRequest,
                ),
                count_standing(self@.store.slots, Kind::Explosion) == count_standing(
                    old(self)@.store.slots,
                    Kind::Explosion,
                ) + k,
                forall|a: int|
                    0 <= a < old(self)@.store.slots.len() && occupied(
                        #[trigger] old(self)@.store.slots[a],
                    ) && !standing(old(self)@.store.slots[a], Kind::ExplosionRequest)
                        ==> self@.store.slots[a] == old(self)@.store.slots[a],
                generations_grow(old(self)@.store.slots, self@.store.slots),
            decreases n - i,
        {
            let s = self.store.slot(i);
            let h = Handle { index: i, generation: s.generation };
            let ghost b = self@.store;
            let made = self.materialize(h);
            proof {
                let c = match made {
                    Some(x) => Some(Conversion { request: h, explosion: x }),
                    None => None,
                };
                lemma_conversion_step(old(self)@.store, b, self@.store, r@, i as int, self.materials.explosion, c);
            }
            if let Some(x) = made {
                proof {
                    let f = self@.store;
                    assert forall|a: int| 0 <= a < b.slots.len() && a != i && !free(#[trigger] b.slots[a])
                        implies f.slots[a] == b.slots[a] by {
                        assert(x.index != a);
                    }
                    let ex = explosion_from(b.entity(h), self.materials.explosion);
                    lemma_marked_counts(b, h, Kind::ExplosionRequest);
                    lemma_marked_counts(b, h, Kind::Explosion);
                    lemma_placed_counts(marked(b, h), f, x, ex, Kind::ExplosionRequest);
                    lemma_placed_counts(marked(b, h), f, x, ex, Kind::Explosion);
                    lemma_count_bound(b.slots, Kind::ExplosionRequest);
                    lemma_count_bound(old(self)@.store.slots, Kind::ExplosionRequest);
                }
                k = k + 1;
                r.push(Conversion { request: h, explosion: x });
            }
            i = i + 1;
        }
        proof {
            lemma_none_standing(self@.store.slots, Kind::ExplosionRequest);
        }
        r
    }

    /// Ages every standing explosion by one tick; one whose life runs out is
    /// marked for destruction.
    pub fn age_explosions(&mut self)
        requires
            old(self)@.inv(),
        ensures
            final(self)@.inv(),
            final(self)@ == old(self)@.with_store(final(self)@.store),
            final(self)@.store.enemies == old(self)@.store.enemies,
            final(self)@.store.slots.len() == old(self)@.store.slots.len(),
            forall|i: int|
                0 <= i < old(self)@.store.slots.len() ==> #[trigger] final(self)@.store.slots[i]
                    == aged(old(self)@.store.slots[i]),
            generations_grow(old(self)@.store.slots, final(self)@.store.slots),
    {
        let n = self.store.len();
        let mut i: usize = 0;
        while i < n
            invariant
                self@.inv(),
                self@ == old(self)@.with_store(self@.store),
                self@.store.enemies == old(self)@.store.enemies,
                n == self@.store.slots.len(),
                n == old(self)@.store.slots.len(),
                i <= n,
                forall|j: int| 0 <= j < i ==> #[trigger] self@.store.slots[j] == aged(
                    old(self)@.store.slots[j],
                ),
                forall|j: int| i <= j < n ==> #[trigger] self@.store.slots[j]
                    == old(self)@.store.slots[j],
            decreases n - i,
        {
            let s = self.store.slot(i);
            if !s.doomed {
                if let Some(e) = s.entity {
                    if e.kind == Kind::Explosion {
                        let h = Handle { index: i, generation: s.generation };
                        if e.life <= 1 {
                            self.store.destroy(h);
                        } else {
                            self.store.update(h, Entity { life: e.life - 1, ..e });
                        }
                    }
                }
            }
            i = i + 1;
        }
    }

    /// Counts the spawn timer down; returns whether an enemy is due this
    /// tick, which restarts the count.
    pub fn spawn_timer(&mut self) -> (due: bool)
        requires
            old(self)@.inv(),
        ensures
            final(self)@.inv(),
            due == (old(self)@.spawn_countdown == 0),
            final(self)@ == (WorldView {
                spawn_countdown: if due {
                    (old(self)@.spawn_interval - 1) as nat
                } else {
                    (old(self)@.spawn_countdown - 1) as nat
                },
                ..old(self)@
            }),
    {
        if self.spawn_countdown == 0 {
            self.spawn_countdown = self.spawn_interval - 1;
            true
        } else {
            self.spawn_countdown = self.spawn_countdown - 1;
            false
        }
    }

    /// Applies the destructions marked during the tick.
    pub fn commit(&mut self)
        requires
            old(self)@.inv(),
        ensures
            final(self)@.inv(),
            final(self)@ == old(self)@.with_store(final(self)@.store),
            final(self)@.store.enemies == old(self)@.store.enemies,
            final(self)@.store.slots.len() == old(self)@.store.slots.len(),
            forall|i: int|
                0 <= i < old(self)@.store.slots.len() ==> #[trigger] final(self)@.store.slots[i]
                    == committed(old(self)@.store.slots[i]),
            no_doomed(final(self)@.store.slots),
            generations_grow(old(self)@.store.slots, final(self)@.store.slots),
    {
        self.store.commit();
    }

    /// Runs one fixed tick: the player moves, lasers fly, the trigger is
    /// read, the spawn timer may bring an enemy at `enemy_x` on the spawn
    /// line, lasers hit enemies, explosion requests become explosions,
    /// explosions age, and finally every marked destruction is applied.
    pub fn tick(&mut self, input: Input, enemy_x: i64)
        requires
            old(self)@.inv(),
        ensures
            final(self)@.inv(),
            exists|
                v: Seq<WorldView>,
                fired: Option<Handle>,
                spawned: Option<Handle>,
                hits: Seq<Hit>,
                conversions: Seq<Conversion>,
            |
                #[trigger] tick_chain(
                    old(self)@,
                    final(self)@,
                    input,
                    enemy_x,
                    v,
                    fired,
                    spawned,
                    hits,
                    conversions,
                ),
            no_doomed(final(self)@.store.slots),
            forall|a: int|
                0 <= a < final(self)@.store.slots.len() && occupied(
                    #[trigger] final(self)@.store.slots[a],
                ) ==> final(self)@.store.slots[a].entity->0.kind != Kind::ExplosionRequest,
            generations_grow(old(self)@.store.slots, final(self)@.store.slots),
            old(self)@.player is Some && standing_at(
                old(self)@.store,
                old(self)@.player->0,
                Kind::Player,
            ) ==> final(self)@.store.live(old(self)@.player->0) && final(self)@.store.entity(
                old(self)@.player->0,
            ) == (Entity {
                ready: !input.fire,
                ..player_moved(old(self)@.store.entity(old(self)@.player->0), input.left, input.right)
            }),
            final(self)@.spawn_countdown == if old(self)@.spawn_countdown == 0 {
                (old(self)@.spawn_interval - 1) as nat
            } else {
                (old(self)@.spawn_countdown - 1) as nat
            },
            final(self)@ == (WorldView {
                store: final(self)@.store,
                spawn_countdown: final(self)@.spawn_countdown,
                ..old(self)@
            }),
    {
        let ghost g0 = self@.store.slots;
        self.move_player(input.left, input.right);
        let ghost ga = self@.store.slots;
        let ghost w0 = self@;
        self.move_lasers();
        let ghost gb = self@.store.slots;
        let ghost w1 = self@;
        let fired = self.fire(input.fire);
        let ghost gc = self@.store.slots;
        let ghost w2 = self@;
        let due = self.spawn_timer();
        let spawned = if due {
            let y = self.half_h - ENEMY_DROP;
            self.spawn_enemy(enemy_x, y)
        } else {
            None
        };
        let ghost gd = self@.store.slots;
        let ghost w3 = self@;
        let hits = self.laser_hit_enemy();
        let ghost ge = self@.store.slots;
        let ghost w4 = self@;
        let conversions = self.explosion_to_spawn();
        let ghost w5 = self@;
        let ghost g2 = self@.store.slots;
        self.age_explosions();
        let ghost g3 = self@.store.slots;
        let ghost w6 = self@;
        self.commit();
        proof {
            let v = seq![w0, w1, w2, w3, w4, w5, w6];
            assert(tick_chain(old(self)@, self@, input, enemy_x, v, fired, spawned, hits@, conversions@));
            let f = self@.store.slots;
            assert forall|a: int| 0 <= a < g0.len() implies #[trigger] g0[a].generation <= f[a].generation by {
                assert(g0[a].generation <= ga[a].generation);
                assert(ga[a].generation <= gb[a].generation);
                assert(gb[a].generation <= gc[a].generation);
                assert(gc[a].generation <= gd[a].generation);
                assert(gd[a].generation <= ge[a].generation);
                assert(ge[a].generation <= g2[a].generation);
                assert(g2[a].generation <= g3[a].generation);
                assert(g3[a].generation <= f[a].generation);
            }
            if old(self)@.player is Some && standing_at(
                old(self)@.store,
                old(self)@.player->0,
                Kind::Player,
            ) {
                let pi = old(self)@.player->0.index as int;
                let pe = old(self)@.store.entity(old(self)@.player->0);
                let pm = player_moved(pe, input.left, input.right);
                assert(ga[pi] == Slot { entity: Some(pm), ..g0[pi] });
                assert(gb[pi] == flown(ga[pi], old(self)@.top()));
                assert(gb[pi] == ga[pi]);
                assert(gc[pi] == Slot { entity: Some(Entity { ready: !input.fire, ..pm }), ..g0[pi] });
                assert(gd[pi] == gc[pi]);
                assert(ge[pi] == gd[pi]);
                assert(g2[pi] == ge[pi]);
                assert(g3[pi] == aged(g2[pi]));
                assert(f[pi] == committed(g3[pi]));
            }
            assert forall|a: int| 0 <= a < f.len() && occupied(#[trigger] f[a]) implies f[a].entity->0.kind
                != Kind::ExplosionRequest by {
                assert(f[a] == committed(g3[a]));
                assert(g3[a] == aged(g2[a]));
                assert(!standing(g2[a], Kind::ExplosionRequest));
            }
        }
    }

    /// The number of live entities of kind `k`, marked ones included.
    pub fn count(&self, k: Kind) -> (r: usize)
        ensures
            r == count_live(self@.store.slots, k),
    {
        let n = self.store.len();
        let mut i: usize = 0;
        let mut c: usize = 0;
        while i < n
            invariant
                n == self@.store.slots.len(),
                i <= n,
                c == count_live(self@.store.slots.subrange(0, i as int), k),
                c <= i,
            decreases n - i,
        {
            let s = self.store.slot(i);
            proof {
                assert(self@.store.slots.subrange(0, i + 1).drop_last() =~= self@.store.slots.subrange(0, i as int));
            }
            if let Some(e) = s.entity {
                if e.kind == k {
                    c = c + 1;
                }
            }
            i = i + 1;
        }
        proof {
            assert(self@.store.slots.subrange(0, n as int) =~= self@.store.slots);
        }
        c
    }
}

} // verus!
