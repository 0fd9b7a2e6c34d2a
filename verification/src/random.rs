//! Collections of pseudo-random rectangles, for trying the detector out.

use crate::rect::{all_valid, Rect};
use rand::rngs::SmallRng;
use rand::{Rng, SeedableRng};
use vstd::prelude::*;

verus! {

#[verifier::external_type_specification]
#[verifier::external_body]
pub struct ExSmallRng(rand::rngs::SmallRng);

/// `SmallRng::seed_from_u64`: a generator whose stream is fixed by the seed.
/// Which stream that is depends on the platform, so nothing is said of it.
#[verifier::external_body]
fn seeded_rng(seed: u64) -> (rng: SmallRng) {
    SmallRng::seed_from_u64(seed)
}

/// `Rng::gen_range` on the inclusive range `low..=high`, which must not be
/// empty: the number drawn lies in the range.
#[verifier::external_body]
fn draw(rng: &mut SmallRng, low: i32, high: i32) -> (x: i32)
    requires
        low <= high,
    ensures
        low <= x <= high,
{
    rng.gen_range(low..=high)
}

/// The rectangle's lower corner lies within `pos_range` of the origin on both
/// axes, and its width and height lie between 1 and `max_size`.
pub open spec fn within(r: Rect, pos_range: i32, max_size: i32) -> bool {
    &&& -pos_range <= r.x1 <= pos_range
    &&& -pos_range <= r.y1 <= pos_range
    &&& 1 <= r.x2 - r.x1 <= max_size
    &&& 1 <= r.y2 - r.y1 <= max_size
}

/// The rectangle with lower corner `(x1, y1)` that is `width` wide and
/// `height` high.
pub fn rect_from_corner(x1: i32, y1: i32, width: i32, height: i32) -> (r: Rect)
    requires
        i32::MIN <= x1 + width <= i32::MAX,
        i32::MIN <= y1 + height <= i32::MAX,
    ensures
        r.x1 == x1,
        r.y1 == y1,
        r.x2 == x1 + width,
        r.y2 == y1 + height,
{
    Rect { x1, y1, x2: x1 + width, y2: y1 + height }
}

/// `n` rectangles drawn from the generator that `seed` fixes: the lower
/// corner of each within `pos_range` of the origin on both axes, its width and
/// height between 1 and `max_size`. All of them are valid.
pub fn random_rects_detailed(n: usize, seed: u64, pos_range: i32, max_size: i32) -> (rects: Vec<Rect>)
    requires
        0 <= pos_range,
        1 <= max_size,
        pos_range + max_size <= i32::MAX,
    ensures
        rects@.len() == n,
        forall|i: int| 0 <= i < rects@.len() ==> within(#[trigger] rects@[i], pos_range, max_size),
        all_valid(rects@),
{
    let mut rng = seeded_rng(seed);
    let mut rects: Vec<Rect> = Vec::new();
    let mut i: usize = 0;
    while i < n
        invariant
            0 <= pos_range,
            1 <= max_size,
            pos_range + max_size <= i32::MAX,
            i <= n,
            rects@.len() == i,
            forall|k: int| 0 <= k < rects@.len() ==> within(#[trigger] rects@[k], pos_range, max_size),
        decreases n - i,
    {
        let x1 = draw(&mut rng, -pos_range, pos_range);
        let width = draw(&mut rng, 1, max_size);
        let y1 = draw(&mut rng, -pos_range, pos_range);
        let height = draw(&mut rng, 1, max_size);
        rects.push(rect_from_corner(x1, y1, width, height));
        i += 1;
    }
    rects
}

/// `n` rectangles drawn from the generator that `seed` fixes, with lower
/// corners within 100 of the origin and sides between 1 and 50.
pub fn random_rects(n: usize, seed: u64) -> (rects: Vec<Rect>)
    ensures
        rects@.len() == n,
        forall|i: int| 0 <= i < rects@.len() ==> within(#[trigger] rects@[i], 100, 50),
        all_valid(rects@),
{
    random_rects_detailed(n, seed, 100, 50)
}

} // verus!
