use rust_invaders::geometry::{collide, shift, UNITS_PER_PIXEL};
use rust_invaders::store::{Entity, Handle, Kind, Speed, Sprite, Store, Transform};
use rust_invaders::world::{setup, Input, Materials, World, EXPLOSION_TICKS, MAX_ENEMIES};

fn sprite(image: u64, w: u32, h: u32) -> Sprite {
    Sprite { image, w, h }
}

fn materials() -> Materials {
    Materials {
        player: sprite(1, 144, 75),
        laser: sprite(2, 64, 64),
        enemy: sprite(3, 64, 64),
        explosion: sprite(4, 64, 64),
    }
}

fn world() -> World {
    setup(materials(), 598, 676)
}

fn px(p: i64) -> i64 {
    p * UNITS_PER_PIXEL
}

const IDLE: Input = Input { left: false, right: false, fire: false };

fn count_live(w: &World, k: Kind) -> usize {
    let s = w.store();
    let mut n = 0;
    for i in 0..s.len() {
        if let Some(e) = s.slot(i).entity {
            if e.kind == k {
                n += 1;
            }
        }
    }
    n
}

#[test]
fn speed_defaults_to_five_hundred() {
    assert_eq!(Speed::default(), Speed(500));
}

#[test]
fn player_spawns_above_bottom_and_moves_right_one_tick() {
    let mut w = world();
    let p = w.spawn_player();
    let e = w.get(p).unwrap();
    assert_eq!(e.kind, Kind::Player);
    assert_eq!(e.tf.x, 0);
    // bottom is -338 px; 23.75 px above it
    assert_eq!(e.tf.y, -338 * 60 + 1425);
    assert!(e.ready);
    w.tick(Input { left: false, right: true, fire: false }, 0);
    let e = w.get(p).unwrap();
    assert_eq!(e.tf.x, 500);
    let x_px = e.tf.x as f64 / UNITS_PER_PIXEL as f64;
    assert!((x_px - 8.33).abs() < 0.01);
}

#[test]
fn player_moves_left_and_stays_with_both_keys() {
    let mut w = world();
    let p = w.spawn_player();
    w.move_player(true, false);
    assert_eq!(w.get(p).unwrap().tf.x, -500);
    w.move_player(true, true);
    assert_eq!(w.get(p).unwrap().tf.x, -500);
    w.move_player(false, false);
    assert_eq!(w.get(p).unwrap().tf.x, -500);
}

#[test]
fn laser_hits_enemy_at_same_place() {
    let mut w = world();
    let en = w.spawn_enemy(px(100), px(300)).unwrap();
    let la = w.spawn_laser(px(100), px(300));
    assert_eq!(w.active_enemies(), 1);
    let st = w.laser_strike(la).unwrap();
    assert_eq!(st.enemy, en);
    assert_eq!(w.active_enemies(), 0);
    let req = w.get(st.request).unwrap();
    assert_eq!(req.kind, Kind::ExplosionRequest);
    assert_eq!((req.tf.x, req.tf.y), (px(100), px(300)));
    assert!(w.store().slot(en.index).doomed);
    assert!(w.store().slot(la.index).doomed);
    w.commit();
    assert!(w.get(en).is_none());
    assert!(w.get(la).is_none());
    assert_eq!(count_live(&w, Kind::ExplosionRequest), 1);
}

#[test]
fn one_laser_kills_only_the_first_of_two_enemies() {
    let mut w = world();
    let first = w.spawn_enemy(px(100), px(100)).unwrap();
    let second = w.spawn_enemy(px(100), px(102)).unwrap();
    // a 2 px tall laser centred at y = 84.5 px: inside the first enemy's box
    // (84..116 px) and below the second's (86..118 px)
    let la = w.spawn_laser(px(100), 5070);
    let mut m = materials();
    m.laser = sprite(2, 4, 4);
    let mut w2 = setup(m, 598, 676);
    let first2 = w2.spawn_enemy(px(100), px(100)).unwrap();
    let second2 = w2.spawn_enemy(px(100), px(102)).unwrap();
    w2.spawn_laser(px(100), 5070);
    assert_eq!(w2.laser_hit_enemy().len(), 1);
    assert_eq!(w2.active_enemies(), 1);
    w2.commit();
    assert!(w2.get(first2).is_none());
    assert!(w2.get(second2).is_some());
    assert_eq!(w2.count(Kind::Enemy), 1);
    // with a full-size laser both overlap, and still only one dies
    assert_eq!(w.laser_hit_enemy().len(), 1);
    assert_eq!(w.active_enemies(), 1);
    w.commit();
    assert!(w.get(first).is_none());
    assert!(w.get(second).is_some());
    assert!(w.get(la).is_none());
}

#[test]
fn two_lasers_on_one_enemy_kill_it_once() {
    let mut w = world();
    let en = w.spawn_enemy(0, 0).unwrap();
    let a = w.spawn_laser(0, 0);
    let b = w.spawn_laser(0, 0);
    assert_eq!(w.laser_hit_enemy().len(), 1);
    assert_eq!(w.active_enemies(), 0);
    w.commit();
    assert!(w.get(en).is_none());
    assert!(w.get(a).is_none());
    assert!(w.get(b).is_some());
    assert_eq!(count_live(&w, Kind::ExplosionRequest), 1);
}

#[test]
fn missing_laser_changes_nothing() {
    let mut w = world();
    w.spawn_enemy(0, 0).unwrap();
    let la = w.spawn_laser(px(200), 0);
    assert!(w.laser_strike(la).is_none());
    assert_eq!(w.active_enemies(), 1);
    assert!(!w.store().slot(la.index).doomed);
}

#[test]
fn touching_boxes_do_not_collide() {
    let e = Entity {
        kind: Kind::Enemy,
        tf: Transform { x: 0, y: 0, z: 0, sx_pct: 50, sy_pct: 50 },
        sprite: sprite(0, 64, 64),
        speed: Speed(0),
        ready: false,
        life: 0,
    };
    let mut f = e;
    f.tf.x = px(32);
    assert!(!collide(&e, &f));
    f.tf.x = px(32) - 1;
    assert!(collide(&e, &f));
}

#[test]
fn shift_saturates() {
    assert_eq!(shift(i64::MAX - 1, 500), i64::MAX);
    assert_eq!(shift(i64::MIN + 1, -500), i64::MIN);
    assert_eq!(shift(10, -500), -490);
}

#[test]
fn held_trigger_fires_once() {
    let mut w = world();
    w.spawn_player();
    let fire = Input { left: false, right: false, fire: true };
    for _ in 0..10 {
        w.tick(fire, 0);
    }
    assert_eq!(w.count(Kind::Laser), 1);
    w.tick(IDLE, 0);
    w.tick(fire, 0);
    assert_eq!(w.count(Kind::Laser), 2);
}

#[test]
fn fire_needs_ready_player() {
    let mut w = world();
    let p = w.spawn_player();
    assert!(w.fire(true).is_some());
    assert!(!w.get(p).unwrap().ready);
    assert!(w.fire(true).is_none());
    assert!(w.fire(false).is_none());
    assert!(w.get(p).unwrap().ready);
    let l = w.fire(true).unwrap();
    let e = w.get(l).unwrap();
    let pe = w.get(p).unwrap();
    assert_eq!((e.tf.x, e.tf.y), (pe.tf.x, pe.tf.y));
}

#[test]
fn fire_without_player_does_nothing() {
    let mut w = world();
    assert!(w.fire(true).is_none());
    assert_eq!(w.store().len(), 0);
}

#[test]
fn laser_leaves_through_top() {
    let mut w = world();
    let la = w.spawn_laser(0, px(338) - 400);
    w.move_lasers();
    assert_eq!(w.get(la).unwrap().tf.y, px(338) + 100);
    assert!(w.store().slot(la.index).doomed);
    w.commit();
    assert!(w.get(la).is_none());
    let lb = w.spawn_laser(0, 0);
    w.tick(IDLE, 0);
    assert_eq!(w.get(lb).unwrap().tf.y, 500);
}

#[test]
fn enemy_budget_is_respected() {
    let mut w = world();
    for _ in 0..MAX_ENEMIES {
        assert!(w.spawn_enemy(0, 0).is_some());
    }
    assert!(w.spawn_enemy(0, 0).is_none());
    assert_eq!(w.active_enemies(), MAX_ENEMIES);
}

#[test]
fn enemies_spawn_on_timer() {
    let mut w = world();
    for _ in 0..59 {
        w.tick(IDLE, px(50));
    }
    assert_eq!(w.active_enemies(), 0);
    w.tick(IDLE, px(50));
    assert_eq!(w.active_enemies(), 1);
    let s = w.store();
    let e = s.slot(0).entity.unwrap();
    assert_eq!(e.kind, Kind::Enemy);
    assert_eq!((e.tf.x, e.tf.y), (px(50), px(338) - px(100)));
    for _ in 0..60 * 5 {
        w.tick(IDLE, px(50));
        assert_eq!(w.active_enemies(), w.count(Kind::Enemy));
    }
    assert_eq!(w.active_enemies(), MAX_ENEMIES);
}

#[test]
fn enemy_count_tracks_population_through_ticks() {
    let mut w = world();
    w.spawn_player();
    w.spawn_enemy(0, px(-300)).unwrap();
    w.spawn_enemy(px(200), px(100)).unwrap();
    let fire = Input { left: false, right: false, fire: true };
    for t in 0..200 {
        let input = if t % 2 == 0 { fire } else { IDLE };
        w.tick(input, px(0));
        assert_eq!(w.active_enemies(), w.count(Kind::Enemy));
        assert_eq!(w.count(Kind::ExplosionRequest), 0);
    }
}

#[test]
fn collision_in_a_tick_becomes_one_explosion() {
    let mut w = world();
    w.spawn_enemy(px(100), px(300)).unwrap();
    w.spawn_laser(px(100), px(300) - 500);
    w.tick(IDLE, 0);
    assert_eq!(w.active_enemies(), 0);
    assert_eq!(w.count(Kind::Enemy), 0);
    assert_eq!(w.count(Kind::Laser), 0);
    assert_eq!(w.count(Kind::ExplosionRequest), 0);
    assert_eq!(w.count(Kind::Explosion), 1);
    let s = w.store();
    let mut found = None;
    for i in 0..s.len() {
        if let Some(e) = s.slot(i).entity {
            found = Some(e);
        }
    }
    let x = found.unwrap();
    assert_eq!(x.kind, Kind::Explosion);
    assert_eq!((x.tf.x, x.tf.y), (px(100), px(300)));
    assert_eq!(x.sprite.image, 4);
    assert_eq!(x.life, EXPLOSION_TICKS - 1);
}

#[test]
fn explosion_ages_out() {
    let mut w = world();
    w.spawn_enemy(0, 0).unwrap();
    w.spawn_laser(0, -500);
    w.tick(IDLE, 0);
    assert_eq!(w.count(Kind::Explosion), 1);
    for _ in 0..EXPLOSION_TICKS - 2 {
        w.tick(IDLE, 0);
    }
    assert_eq!(w.count(Kind::Explosion), 1);
    w.tick(IDLE, 0);
    assert_eq!(w.count(Kind::Explosion), 0);
}

#[test]
fn materialize_ignores_other_kinds() {
    let mut w = world();
    let en = w.spawn_enemy(0, 0).unwrap();
    assert!(w.materialize(en).is_none());
    assert_eq!(w.explosion_to_spawn().len(), 0);
}

#[test]
fn destroyed_handle_is_never_live_again() {
    let mut s = Store::new();
    let e = Entity {
        kind: Kind::Laser,
        tf: Transform { x: 0, y: 0, z: 0, sx_pct: 50, sy_pct: 50 },
        sprite: sprite(0, 1, 1),
        speed: Speed(500),
        ready: false,
        life: 0,
    };
    let a = s.create(e);
    assert!(s.destroy(a));
    assert!(!s.destroy(a));
    assert!(s.get(a).is_some());
    s.commit();
    assert!(s.get(a).is_none());
    let b = s.create(e);
    assert_eq!(b.index, a.index);
    assert_ne!(b.generation, a.generation);
    assert!(s.get(a).is_none());
    assert!(!s.destroy(a));
    assert!(s.get(b).is_some());
    let stale = Handle { index: 7, generation: 0 };
    assert!(s.get(stale).is_none());
}

#[test]
fn enemy_destroy_lowers_count_once() {
    let mut s = Store::new();
    let e = Entity {
        kind: Kind::Enemy,
        tf: Transform { x: 0, y: 0, z: 0, sx_pct: 50, sy_pct: 50 },
        sprite: sprite(0, 1, 1),
        speed: Speed(0),
        ready: false,
        life: 0,
    };
    let a = s.create(e);
    s.create(e);
    assert_eq!(s.active_enemies(), 2);
    assert!(s.destroy(a));
    assert_eq!(s.active_enemies(), 1);
    assert!(!s.destroy(a));
    assert_eq!(s.active_enemies(), 1);
    s.commit();
    assert_eq!(s.active_enemies(), 1);
}

#[test]
fn update_keeps_kind() {
    let mut s = Store::new();
    let e = Entity {
        kind: Kind::Laser,
        tf: Transform { x: 0, y: 0, z: 0, sx_pct: 50, sy_pct: 50 },
        sprite: sprite(0, 1, 1),
        speed: Speed(500),
        ready: false,
        life: 0,
    };
    let a = s.create(e);
    let mut f = e;
    f.kind = Kind::Enemy;
    assert!(!s.update(a, f));
    assert_eq!(s.active_enemies(), 0);
    let mut g = e;
    g.tf.x = 9;
    assert!(s.update(a, g));
    assert_eq!(s.get(a).unwrap().tf.x, 9);
}

#[test]
fn spawn_timer_counts_down() {
    let mut w = world();
    for _ in 0..59 {
        assert!(!w.spawn_timer());
    }
    assert!(w.spawn_timer());
    assert!(!w.spawn_timer());
}

#[test]
fn live_of_lists_kind_in_slot_order() {
    let mut w = world();
    let a = w.spawn_laser(0, 0);
    let en = w.spawn_enemy(px(300), px(300)).unwrap();
    let b = w.spawn_laser(px(-200), 0);
    assert_eq!(w.store().live_of(Kind::Laser), vec![a, b]);
    assert_eq!(w.store().live_of(Kind::Enemy), vec![en]);
    let st = w.laser_strike(a);
    assert!(st.is_none());
    w.spawn_laser(px(300), px(300));
    let lasers = w.store().live_of(Kind::Laser);
    assert_eq!(lasers.len(), 3);
    let hit = w.laser_strike(lasers[2]).unwrap();
    assert_eq!(hit.enemy, en);
    assert_eq!(w.store().live_of(Kind::Laser).len(), 3);
    w.commit();
    assert_eq!(w.store().live_of(Kind::Laser), vec![a, b]);
    assert!(w.store().live_of(Kind::Enemy).is_empty());
    assert_eq!(w.store().live_of(Kind::ExplosionRequest), vec![hit.request]);
}

#[test]
fn hits_pair_laser_enemy_and_request() {
    let mut w = world();
    let first = w.spawn_enemy(px(100), px(100)).unwrap();
    let second = w.spawn_enemy(px(100), px(102)).unwrap();
    // a full-size laser at 69 px overlaps the first enemy's box (84..116 px)
    // but not the second's (86..118 px)
    let la = w.spawn_laser(px(100), px(69));
    let before = w.get(second).unwrap();
    let hits = w.laser_hit_enemy();
    assert_eq!(hits.len(), 1);
    assert_eq!(hits[0].laser, la);
    assert_eq!(hits[0].enemy, first);
    let req = w.get(hits[0].request).unwrap();
    assert_eq!(req.kind, Kind::ExplosionRequest);
    assert_eq!((req.tf.x, req.tf.y), (px(100), px(100)));
    assert_eq!(w.get(second).unwrap(), before);
    assert!(!w.store().slot(second.index).doomed);
    assert_eq!(w.active_enemies(), 1);
}

#[test]
fn overlapping_enemies_without_lasers_stay() {
    let mut w = world();
    let a = w.spawn_enemy(px(100), px(100)).unwrap();
    let b = w.spawn_enemy(px(100), px(102)).unwrap();
    let ea = w.get(a).unwrap();
    let eb = w.get(b).unwrap();
    assert!(w.laser_hit_enemy().is_empty());
    assert_eq!(w.get(a).unwrap(), ea);
    assert_eq!(w.get(b).unwrap(), eb);
    assert_eq!(w.active_enemies(), 2);
    assert_eq!(w.store().len(), 2);
}

#[test]
fn requests_become_explosions_in_place() {
    let mut w = world();
    w.spawn_enemy(px(100), px(300)).unwrap();
    let la = w.spawn_laser(px(100), px(300));
    let hit = w.laser_strike(la).unwrap();
    let convs = w.explosion_to_spawn();
    assert_eq!(convs.len(), 1);
    assert_eq!(convs[0].request, hit.request);
    let x = w.get(convs[0].explosion).unwrap();
    assert_eq!(x.kind, Kind::Explosion);
    assert_eq!((x.tf.x, x.tf.y, x.tf.z), (px(100), px(300), 10));
    assert_eq!((x.tf.sx_pct, x.tf.sy_pct), (100, 100));
    assert_eq!(x.sprite.image, 4);
    assert_eq!(x.life, EXPLOSION_TICKS);
    assert!(w.store().slot(hit.request.index).doomed);
    let len = w.store().len();
    assert!(w.explosion_to_spawn().is_empty());
    assert_eq!(w.store().len(), len);
}

#[test]
fn spawn_x_stays_in_play_area() {
    let w = world();
    let half = 598 * 30;
    assert_eq!(w.spawn_x(0), -half);
    assert_eq!(w.spawn_x(2 * half as u64), half);
    assert_eq!(w.spawn_x(2 * half as u64 + 1), -half);
    assert_eq!(w.spawn_x(half as u64), 0);
    for d in [7u64, 123_456_789, u64::MAX] {
        let x = w.spawn_x(d);
        assert!(-half <= x && x <= half);
    }
}
