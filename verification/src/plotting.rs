//! The data behind the plots: delay traces sampled at every tick.
use vstd::prelude::*;
use crate::connections::MIN_DELAY;

verus! {

/// `i` is the first record of `data` taken at time `t`.
pub open spec fn is_first_record(data: Seq<(u32, u32)>, t: int, i: int) -> bool {
    &&& 0 <= i < data.len()
    &&& data[i].0 == t
    &&& forall|j: int| 0 <= j < i ==> #[trigger] data[j].0 != t
}

/// Some record of `data` was taken at time `t`.
pub open spec fn has_record(data: Seq<(u32, u32)>, t: int) -> bool {
    exists|i: int| 0 <= i < data.len() && #[trigger] data[i].0 == t
}

/// The delay shown at time `t`: that of the first record taken at `t`,
/// else the one shown at the tick before, and `MIN_DELAY` before any.
pub open spec fn held_delay(data: Seq<(u32, u32)>, t: nat) -> u32
    decreases t,
{
    let before = if t == 0 {
        MIN_DELAY
    } else {
        held_delay(data, (t - 1) as nat)
    };
    if has_record(data, t as int) {
        data[choose|i: int| is_first_record(data, t as int, i)].1
    } else {
        before
    }
}

/// The points of a delay trace: for each tick before `duration`, the tick
/// and the delay shown then.
pub fn delay_points(data: &Vec<(u32, u32)>, duration: u32) -> (r: Vec<(u32, u32)>)
    ensures
        r@ == Seq::new(duration as nat, |t: int| (t as u32, held_delay(data@, t as nat))),
{
    let mut points: Vec<(u32, u32)> = Vec::new();
    let mut d: u32 = MIN_DELAY;
    let mut t: u32 = 0;
    let n = data.len();
    while t < duration
        invariant
            n == data@.len(),
            t <= duration,
            points@ == Seq::new(t as nat, |t2: int| (t2 as u32, held_delay(data@, t2 as nat))),
            d == if t == 0 { MIN_DELAY } else { held_delay(data@, (t - 1) as nat) },
        decreases duration - t,
    {
        let mut i: usize = 0;
        let mut found = false;
        while i < n && !found
            invariant
                n == data@.len(),
                i <= n,
                !found ==> forall|j: int| 0 <= j < i ==> #[trigger] data@[j].0 != t,
                found ==> i > 0 && is_first_record(data@, t as int, i - 1),
            decreases n - i + if found { 0int } else { 1int },
        {
            if data[i].0 == t {
                found = true;
            }
            i += 1;
        }
        proof {
            if found {
                let k = choose|k: int| is_first_record(data@, t as int, k);
                assert(is_first_record(data@, t as int, (i - 1) as int));
                if k < i - 1 {
                    assert(data@[k].0 != t);
                }
                if k > i - 1 {
                    assert(data@[i - 1].0 != t);
                }
                assert(has_record(data@, t as int));
            } else {
                assert(!has_record(data@, t as int));
            }
        }
        if found {
            d = data[i - 1].1;
        }
        points.push((t, d));
        proof {
            assert(points@ =~= Seq::new((t + 1) as nat, |t2: int| (t2 as u32, held_delay(data@, t2 as nat))));
        }
        t += 1;
    }
    points
}

} // verus!
