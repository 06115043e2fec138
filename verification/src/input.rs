//! Input generators: spike trains fed to the network through input
//! connections.
use vstd::prelude::*;
use crate::chance::{draw_below, happens, PROBABILITY_SCALE};
use crate::connections::InputConnection;

verus! {

/// What an input generator holds, as mathematical values.
#[verifier::ext_equal]
pub struct InputView {
    pub id: usize,
    pub spikes: Seq<u32>,
    pub spike_times: Seq<u32>,
    pub p: u32,
    pub input_connections: Seq<InputConnection>,
}

impl InputView {
    /// Whether the generator fires at `t`, where `drawn` is the outcome of
    /// the random draw: at a scheduled time always, and otherwise as drawn.
    pub open spec fn fires(self, t: u32, drawn: bool) -> bool {
        self.spike_times.contains(t) || drawn
    }

    /// The generator after a step at `t` with the draw `drawn`: when it
    /// fires, the spike is recorded and every connection holds a spike.
    pub open spec fn step(self, t: u32, drawn: bool) -> InputView {
        if self.fires(t, drawn) {
            InputView {
                spikes: self.spikes.push(t),
                input_connections: self.input_connections.map_values(
                    |c: InputConnection| c.armed(),
                ),
                ..self
            }
        } else {
            self
        }
    }
}

/// An input generator: it fires at the scheduled times, and at any other
/// step with probability `p`.
pub struct Input {
    pub id: usize,
    /// Times at which it fired, in ticks.
    pub spikes: Vec<u32>,
    /// Times at which it fires in any case, in ticks.
    pub spike_times: Vec<u32>,
    /// Probability of firing at a step, in thousandths; 1000 or more fires
    /// at every step.
    pub p: u32,
    pub input_connections: Vec<InputConnection>,
}

impl View for Input {
    type V = InputView;

    open spec fn view(&self) -> InputView {
        InputView {
            id: self.id,
            spikes: self.spikes@,
            spike_times: self.spike_times@,
            p: self.p,
            input_connections: self.input_connections@,
        }
    }
}

/// Whether `t` occurs in `times`.
fn contains_time(times: &Vec<u32>, t: u32) -> (r: bool)
    ensures
        r == times@.contains(t),
{
    let n = times.len();
    let mut i: usize = 0;
    while i < n
        invariant
            n == times@.len(),
            i <= n,
            forall|j: int| 0 <= j < i ==> times@[j] != t,
        decreases n - i,
    {
        if times[i] == t {
            assert(times@[i as int] == t);
            return true;
        }
        i += 1;
    }
    false
}

impl Input {
    pub fn new(id: usize, p: u32, spike_times: Vec<u32>) -> (r: Self)
        ensures
            r@ == (InputView {
                id,
                spikes: Seq::empty(),
                spike_times: spike_times@,
                p,
                input_connections: Seq::empty(),
            }),
    {
        Input { id, spikes: Vec::new(), spike_times, p, input_connections: Vec::new() }
    }

    pub fn add_connection(&mut self, input_connection: InputConnection)
        ensures
            final(self)@ == (InputView {
                input_connections: old(self)@.input_connections.push(input_connection),
                ..old(self)@
            }),
    {
        self.input_connections.push(input_connection);
        assert(self@ =~= (InputView {
            input_connections: old(self)@.input_connections.push(input_connection),
            ..old(self)@
        }));
    }

    /// Collects the spike waiting on connection `c` at `t` (see
    /// `InputConnection::get_spike`): the connection is drained, and its
    /// weight returned when a spike waited, else 0.
    pub fn collect_connection(&mut self, c: usize, t: u32) -> (r: i32)
        requires
            c < old(self)@.input_connections.len(),
        ensures
            final(self)@ == (InputView {
                input_connections: old(self)@.input_connections.update(
                    c as int,
                    old(self)@.input_connections[c as int].drained(),
                ),
                ..old(self)@
            }),
            r == old(self)@.input_connections[c as int].delivered(),
    {
        let mut conn = self.input_connections[c];
        let r = conn.get_spike(t);
        self.input_connections.set(c, conn);
        assert(self@ =~= InputView {
            input_connections: old(self)@.input_connections.update(
                c as int,
                old(self)@.input_connections[c as int].drained(),
            ),
            ..old(self)@
        });
        r
    }

    /// One step at `t`: draws a value from `0..PROBABILITY_SCALE` and lets
    /// the generator fire when it lies below `p` (so with probability `p`,
    /// see `happens` and `law_draw_share`), then proceeds as
    /// `update_with_draw`. It fires for
    /// certain at a scheduled time or when `p` is 1000 or more, and never
    /// otherwise when `p` is 0.
    pub fn update(&mut self, t: u32)
        ensures
            exists|drawn: bool|
                {
                    &&& final(self)@ == old(self)@.step(t, drawn)
                    &&& old(self).p >= PROBABILITY_SCALE ==> drawn
                    &&& old(self).p == 0 ==> !drawn
                },
            exists|z: u64|
                z < PROBABILITY_SCALE && final(self)@ == old(self)@.step(t, #[trigger] draw_below(z, old(self).p)),
    {
        let drawn = happens(self.p);
        self.update_with_draw(t, drawn);
    }

    /// One step at `t`, given the outcome `drawn` of the random draw: when
    /// the generator fires, it records `t` and puts a spike on each of its
    /// connections.
    pub fn update_with_draw(&mut self, t: u32, drawn: bool)
        ensures
            final(self)@ == old(self)@.step(t, drawn),
    {
        let scheduled = contains_time(&self.spike_times, t);
        if scheduled || drawn {
            self.spikes.push(t);
            let n = self.input_connections.len();
            let mut i: usize = 0;
            while i < n
                invariant
                    n == self.input_connections@.len(),
                    n == old(self).input_connections@.len(),
                    i <= n,
                    forall|j: int|
                        0 <= j < i ==> #[trigger] self.input_connections@[j]
                            == old(self).input_connections@[j].armed(),
                    forall|j: int|
                        i <= j < n ==> #[trigger] self.input_connections@[j]
                            == old(self).input_connections@[j],
                    self.id == old(self).id,
                    self.spikes@ == old(self).spikes@.push(t),
                    self.spike_times@ == old(self).spike_times@,
                    self.p == old(self).p,
                decreases n - i,
            {
                let mut c = self.input_connections[i];
                c.add_spike();
                self.input_connections.set(i, c);
                i += 1;
            }
            assert(self@ =~= old(self)@.step(t, drawn));
        }
    }
}

/// A generator fires at each of its scheduled times, whatever the random
/// draw: the time is recorded and each connection holds a spike.
pub proof fn law_scheduled_input_fires(inp: InputView, t: u32, drawn: bool)
    requires
        inp.spike_times.contains(t),
    ensures
        inp.step(t, drawn).spikes == inp.spikes.push(t),
        inp.step(t, drawn).input_connections.len() == inp.input_connections.len(),
        forall|k: int|
            0 <= k < inp.input_connections.len() ==> #[trigger] inp.step(t, drawn).input_connections[k]
                == inp.input_connections[k].armed(),
{
}

/// Away from its scheduled times, a generator whose draw fails stays as it
/// was.
pub proof fn law_unscheduled_input_waits(inp: InputView, t: u32)
    requires
        !inp.spike_times.contains(t),
    ensures
        inp.step(t, false) == inp,
{
}

/// Away from its scheduled times, a generator fires at a step exactly when
/// the draw lies below its probability: its spikes gain the time then, and
/// stay as they were otherwise. For a fixed draw, a higher probability
/// never turns firing into not firing.
pub proof fn law_input_fires_below_p(inp: InputView, t: u32, z: u64, p2: u32)
    requires
        !inp.spike_times.contains(t),
    ensures
        z < inp.p ==> inp.step(t, draw_below(z, inp.p)).spikes == inp.spikes.push(t),
        z >= inp.p ==> inp.step(t, draw_below(z, inp.p)).spikes == inp.spikes,
        inp.p <= p2 && z < inp.p ==> (InputView { p: p2, ..inp }).step(t, draw_below(z, p2)).spikes
            == inp.spikes.push(t),
{
}

} // verus!
