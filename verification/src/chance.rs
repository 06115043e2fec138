//! Random draws, made by the `rand` crate's thread-local generator.
use vstd::prelude::*;
use rand::seq::SliceRandom;
use rand::Rng;
use vstd::set_lib::{set_int_range, lemma_int_range};

verus! {

/// Probabilities are counted in thousandths.
pub const PROBABILITY_SCALE: u32 = 1000;

/// Calls `rand::Rng::gen_range(0..bound)` on the thread-local generator: a
/// value below `bound`, drawn at random. It panics on an empty range, which
/// `requires` rules out.
#[verifier::external_body]
pub(crate) fn uniform_below(bound: u64) -> (r: u64)
    requires
        0 < bound,
    ensures
        r < bound,
{
    rand::thread_rng().gen_range(0..bound)
}

/// Calls `rand::seq::SliceRandom::choose` on the two-element slice `[a, b]`
/// with the thread-local generator: one of the two, picked at random. On a
/// slice that is not empty it returns `Some`, so the `unwrap` cannot fail.
#[verifier::external_body]
pub(crate) fn choose_of_two<T: Copy>(a: T, b: T) -> (r: T)
    ensures
        r == a || r == b,
{
    *[a, b].choose(&mut rand::thread_rng()).unwrap()
}

/// A value on the tick grid from a draw `z` below `2 * (hi - lo)` in
/// half-ticks: the nearest tick to `lo + z / 2`, rounding halves up. A
/// uniform draw so gives each inner tick of `lo..=hi` twice the chance of
/// either end, as rounding a uniform real draw from `lo..hi` would.
pub fn snap_draw(lo: i64, hi: i64, z: u64) -> (r: i64)
    requires
        lo < hi,
        hi - lo <= u32::MAX,
        z < 2 * (hi - lo),
    ensures
        r == lo + (z + 1) / 2,
        lo <= r <= hi,
{
    lo + ((z + 1) / 2) as i64
}

/// A delay drawn from `lo..=hi` on the tick grid; `lo` itself when the two
/// are equal.
pub fn draw_delay(lo: u32, hi: u32) -> (r: u32)
    requires
        lo <= hi,
    ensures
        lo <= r <= hi,
        lo == hi ==> r == lo,
{
    if lo == hi {
        lo
    } else {
        let z = uniform_below(2 * (hi - lo) as u64);
        snap_draw(lo as i64, hi as i64, z) as u32
    }
}

/// A weight drawn from `lo..=hi` on the grid of tenths; `lo` itself when
/// the two are equal.
pub fn draw_weight(lo: i32, hi: i32) -> (r: i32)
    requires
        lo <= hi,
    ensures
        lo <= r <= hi,
        lo == hi ==> r == lo,
{
    if lo == hi {
        lo
    } else {
        let z = uniform_below(2 * (hi as i64 - lo as i64) as u64);
        snap_draw(lo as i64, hi as i64, z) as i32
    }
}

/// The draw `z` from `0..PROBABILITY_SCALE` lies below the probability
/// `p`, in thousandths: the event of probability `p` happens.
pub open spec fn draw_below(z: u64, p: u32) -> bool {
    z < p
}

/// Whether an event of probability `p`, in thousandths, happens when the
/// uniform draw from `0..PROBABILITY_SCALE` came out as `z`: when `z` lies
/// below `p`.
pub fn happens_with_draw(p: u32, z: u64) -> (r: bool)
    ensures
        r == draw_below(z, p),
{
    z < p as u64
}

/// Whether an event of probability `p`, in thousandths, happens: a value
/// is drawn uniformly from `0..PROBABILITY_SCALE` and the event happens when
/// it lies below `p`; so always from `PROBABILITY_SCALE` on, and never at 0.
pub fn happens(p: u32) -> (r: bool)
    ensures
        exists|z: u64| z < PROBABILITY_SCALE && r == #[trigger] draw_below(z, p),
        p >= PROBABILITY_SCALE ==> r,
        p == 0 ==> !r,
{
    let z = uniform_below(PROBABILITY_SCALE as u64);
    happens_with_draw(p, z)
}

/// The draws from `0..PROBABILITY_SCALE` that make an event of probability
/// `p` happen.
pub open spec fn happening_draws(p: u32) -> Set<int> {
    Set::new(|z: int| 0 <= z < PROBABILITY_SCALE && draw_below(z as u64, p))
}

/// Of the `PROBABILITY_SCALE` values a draw can take, exactly `p` (all of
/// them from `PROBABILITY_SCALE` on) make the event happen, the lowest
/// ones: a uniform draw over `0..PROBABILITY_SCALE` makes it happen with
/// probability `p / PROBABILITY_SCALE`. So for `0 < p < PROBABILITY_SCALE`
/// both outcomes can come out: draw 0 makes it happen, draw `p` does not.
pub proof fn law_draw_share(p: u32)
    ensures
        happening_draws(p) == set_int_range(
            0,
            if p < PROBABILITY_SCALE {
                p as int
            } else {
                PROBABILITY_SCALE as int
            },
        ),
        happening_draws(p).len() == if p < PROBABILITY_SCALE {
            p as int
        } else {
            PROBABILITY_SCALE as int
        },
        0 < p < PROBABILITY_SCALE ==> draw_below(0, p) && !draw_below(p as u64, p),
{
    let hi = if p < PROBABILITY_SCALE {
        p as int
    } else {
        PROBABILITY_SCALE as int
    };
    assert(happening_draws(p) =~= set_int_range(0, hi));
    lemma_int_range(0, hi);
}

/// For a fixed draw, a higher probability never turns an event that
/// happens into one that does not.
pub proof fn law_draw_monotone(z: u64, p1: u32, p2: u32)
    requires
        p1 <= p2,
        draw_below(z, p1),
    ensures
        draw_below(z, p2),
{
}

} // verus!
