//! Integer geometry: displacement with saturation and box overlap.
//!
//! Coordinates are sub-pixel units, `UNITS_PER_PIXEL` to a pixel. With the
//! tick rate equal to that number, one tick at `s` pixels per second moves
//! an entity exactly `s` units.
use vstd::prelude::*;
use crate::store::Entity;

verus! {

pub const UNITS_PER_PIXEL: i64 = 60;

pub const TICKS_PER_SECOND: i64 = 60;

/// `x + d`, held within the range of `i64`.
pub open spec fn moved(x: i64, d: int) -> i64 {
    if x + d > i64::MAX {
        i64::MAX
    } else if x + d < i64::MIN {
        i64::MIN
    } else {
        (x + d) as i64
    }
}

pub fn shift(x: i64, d: i64) -> (r: i64)
    ensures
        r == moved(x, d as int),
{
    if d > 0 && x > i64::MAX - d {
        i64::MAX
    } else if d < 0 && x < i64::MIN - d {
        i64::MIN
    } else {
        x + d
    }
}

/// A sprite side of `px` pixels at `pct` percent scale, in units.
pub open spec fn extent(px: u32, pct: u32) -> int {
    px * UNITS_PER_PIXEL * pct / 100
}

pub open spec fn width_of(e: Entity) -> int {
    extent(e.sprite.w, e.tf.sx_pct)
}

pub open spec fn height_of(e: Entity) -> int {
    extent(e.sprite.h, e.tf.sy_pct)
}

/// Two boxes centred on the entities' positions overlap, with strict
/// inequalities, so boxes that only touch do not. Doubled coordinates keep
/// the half extents whole.
pub open spec fn hits(a: Entity, b: Entity) -> bool {
    &&& 2 * a.tf.x - width_of(a) < 2 * b.tf.x + width_of(b)
    &&& 2 * a.tf.x + width_of(a) > 2 * b.tf.x - width_of(b)
    &&& 2 * a.tf.y - height_of(a) < 2 * b.tf.y + height_of(b)
    &&& 2 * a.tf.y + height_of(a) > 2 * b.tf.y - height_of(b)
}

fn extent_exec(px: u32, pct: u32) -> (r: i128)
    ensures
        r == extent(px, pct),
        0 <= r <= 0x10_0000_0000_0000_0000_0000,
{
    let a: u128 = (px as u128) * 60;
    assert(a <= 0xffff_ffff * 60);
    assert(a * (pct as u128) <= 0xffff_ffff * 60 * 0xffff_ffff) by (nonlinear_arith)
        requires
            a <= 0xffff_ffff * 60,
            pct <= 0xffff_ffff,
    ;
    let b: u128 = a * (pct as u128) / 100;
    b as i128
}

/// Whether `a` and `b` overlap.
pub fn collide(a: &Entity, b: &Entity) -> (r: bool)
    ensures
        r == hits(*a, *b),
{
    let wa = extent_exec(a.sprite.w, a.tf.sx_pct);
    let wb = extent_exec(b.sprite.w, b.tf.sx_pct);
    let ha = extent_exec(a.sprite.h, a.tf.sy_pct);
    let hb = extent_exec(b.sprite.h, b.tf.sy_pct);
    let ax2 = 2 * (a.tf.x as i128);
    let bx2 = 2 * (b.tf.x as i128);
    let ay2 = 2 * (a.tf.y as i128);
    let by2 = 2 * (b.tf.y as i128);
    ax2 - wa < bx2 + wb && ax2 + wa > bx2 - wb && ay2 - ha < by2 + hb && ay2 + ha > by2 - hb
}

} // verus!
