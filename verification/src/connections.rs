//! Synapses between neurons and connections from input generators to neurons.
//!
//! Simulated time is counted in ticks of 0.1 ms, the simulation's step.
//! Delays and the learning windows are counted in ticks too, and weights in
//! tenths of the input current that a spike delivers.
use vstd::prelude::*;

verus! {

broadcast use vstd::seq_lib::group_seq_properties;

/// The longest delay that delay growth may reach: 20 ms.
pub const MAX_DELAY: u32 = 200;

/// The shortest delay that a delay shift may leave: 0.1 ms.
pub const MIN_DELAY: u32 = 1;

/// A spike sent at `spike` over a synapse with delay `delay` reaches the
/// post-synaptic neuron at `t`.
pub open spec fn arrives(spike: u32, delay: u32, t: u32) -> bool {
    spike + delay == t
}

/// Some pending spike reaches the neuron at `t`.
pub open spec fn has_arrival(spikes: Seq<u32>, delay: u32, t: u32) -> bool {
    exists|k: int| 0 <= k < spikes.len() && #[trigger] arrives(spikes[k], delay, t)
}

/// `k` is the first pending spike that reaches the neuron at `t`.
pub open spec fn is_first_arrival(spikes: Seq<u32>, delay: u32, t: u32, k: int) -> bool {
    &&& 0 <= k < spikes.len()
    &&& arrives(spikes[k], delay, t)
    &&& forall|j: int| 0 <= j < k ==> !#[trigger] arrives(spikes[j], delay, t)
}

/// The index of the first pending spike that reaches the neuron at `t`.
pub open spec fn first_arrival(spikes: Seq<u32>, delay: u32, t: u32) -> int {
    choose|k: int| is_first_arrival(spikes, delay, t, k)
}

/// Signed distance, in ticks, from the post-synaptic spike at `at` to the
/// arrival of a pre-synaptic spike sent at `spike`.
pub open spec fn arrival_offset(spike: u32, delay: u32, at: u32) -> int {
    spike + delay - at
}

/// The arrival offsets of a spike history, most recent spike first.
pub open spec fn offsets(history: Seq<u32>, delay: u32, at: u32) -> Seq<int> {
    history.map_values(|s: u32| arrival_offset(s, delay, at))
}

/// How many offsets, from the front, are examined before the first one
/// beyond the pre-window ends the scan.
pub open spec fn window_end(offs: Seq<int>, pre_window: int) -> nat
    decreases offs.len(),
{
    if offs.len() == 0 {
        0
    } else if offs[0] > pre_window {
        0
    } else {
        1 + window_end(offs.drop_first(), pre_window)
    }
}

/// An offset that falls in the post-window: the spike arrived after the
/// post-synaptic spike, by less than the window.
pub open spec fn in_post_window(d: int, post_window: int) -> bool {
    d < 0 && d > post_window
}

/// An offset counted as a pre-synaptic arrival.
pub open spec fn in_pre_window(d: int, post_window: int) -> bool {
    !in_post_window(d, post_window) && d != 0
}

/// The sum of a sequence of integers.
pub open spec fn sum_of(s: Seq<int>) -> int
    decreases s.len(),
{
    if s.len() == 0 {
        0
    } else {
        sum_of(s.drop_last()) + s.last()
    }
}

/// A sequence of machine integers read as integers.
pub open spec fn as_ints(s: Seq<i64>) -> Seq<int> {
    s.map_values(|x: i64| x as int)
}

/// The delay after a shift of `shift` ticks: the shift is capped at
/// `MAX_DELAY`, and the result is at least `MIN_DELAY`.
pub open spec fn shifted_delay(delay: u32, shift: int) -> int {
    let capped = if shift < MAX_DELAY { shift } else { MAX_DELAY as int };
    if delay + capped < MIN_DELAY {
        MIN_DELAY as int
    } else {
        delay + capped
    }
}

/// The delay after growing by `growth` ticks, capped at `MAX_DELAY`.
pub open spec fn grown_delay(delay: u32, growth: u32) -> int {
    if delay + growth < MAX_DELAY {
        delay + growth
    } else {
        MAX_DELAY as int
    }
}

/// What a synapse holds, as mathematical values.
#[verifier::ext_equal]
pub struct SynapseView {
    pub id: usize,
    pub pre_neuron: usize,
    pub post_neuron: usize,
    pub weight: i32,
    pub delay: u32,
    pub pre_window: i64,
    pub post_window: i64,
    pub delay_trainable: bool,
    pub weight_trainable: bool,
    pub partial_delay_learning: bool,
    pub declining_learning_rate: bool,
    pub delay_history: Seq<(u32, u32)>,
    pub spikes: Seq<u32>,
    pub spike_history: Seq<u32>,
    pub arrival_sum: i128,
    pub arrival_count: usize,
}

impl SynapseView {
    /// A spike sent at `t`: pending for delivery, and first in the history.
    pub open spec fn add_spike(self, t: u32) -> SynapseView {
        SynapseView { spikes: self.spikes.push(t), spike_history: seq![t] + self.spike_history, ..self }
    }

    /// The synapse after the spikes arriving at `t` were collected.
    pub open spec fn collect(self, t: u32) -> SynapseView {
        if has_arrival(self.spikes, self.delay, t) {
            SynapseView {
                spikes: self.spikes.remove(first_arrival(self.spikes, self.delay, t)),
                ..self
            }
        } else {
            self
        }
    }

    /// The input that the spikes arriving at `t` deliver.
    pub open spec fn collected_input(self, t: u32) -> int {
        if has_arrival(self.spikes, self.delay, t) {
            self.weight as int
        } else {
            0
        }
    }

    /// The arrival offsets, relative to a post-synaptic spike at `at`,
    /// counted as pre-synaptic arrivals (empty where the delay is not
    /// trainable).
    pub open spec fn pre_arrivals(self, at: u32) -> Seq<int> {
        if self.delay_trainable {
            let offs = offsets(self.spike_history, self.delay, at);
            offs.take(window_end(offs, self.pre_window as int) as int).filter(
                |d: int| in_pre_window(d, self.post_window as int),
            )
        } else {
            Seq::empty()
        }
    }

    /// The arrival offsets that fall in the post-window.
    pub open spec fn post_arrivals(self, at: u32) -> Seq<int> {
        if self.delay_trainable {
            let offs = offsets(self.spike_history, self.delay, at);
            offs.take(window_end(offs, self.pre_window as int) as int).filter(
                |d: int| in_post_window(d, self.post_window as int),
            )
        } else {
            Seq::empty()
        }
    }

    /// The synapse after recording its pre-synaptic arrivals for a
    /// post-synaptic spike at `at`: their sum and count. (The sum is held
    /// in an `i128`; `Synapse::get_avg_arrival_t` shows that it fits.)
    pub open spec fn record_arrivals(self, at: u32) -> SynapseView {
        SynapseView {
            arrival_sum: sum_of(self.pre_arrivals(at)) as i128,
            arrival_count: self.pre_arrivals(at).len() as usize,
            ..self
        }
    }

    /// The synapse after a delay shift.
    pub open spec fn shift_delay(self, shift: int) -> SynapseView {
        SynapseView { delay: shifted_delay(self.delay, shift) as u32, ..self }
    }

    /// The synapse after delay growth.
    pub open spec fn grow_delay(self, growth: u32) -> SynapseView {
        SynapseView { delay: grown_delay(self.delay, growth) as u32, ..self }
    }
}

/// A synapse from `pre_neuron` to `post_neuron`.
pub struct Synapse {
    pub id: usize,
    pub pre_neuron: usize,
    pub post_neuron: usize,
    /// Input delivered per spike, in tenths.
    pub weight: i32,
    /// Transmission delay, in ticks.
    pub delay: u32,
    /// Offsets beyond this end the scan of the spike history, in ticks.
    pub pre_window: i64,
    /// Offsets between this and zero count as late arrivals, in ticks.
    pub post_window: i64,
    pub delay_trainable: bool,
    pub weight_trainable: bool,
    pub partial_delay_learning: bool,
    pub declining_learning_rate: bool,
    /// Recorded delays: (time, delay), in ticks.
    pub delay_history: Vec<(u32, u32)>,
    /// Spikes sent and not yet delivered, in order of sending.
    pub spikes: Vec<u32>,
    /// Every spike sent, most recent first.
    pub spike_history: Vec<u32>,
    /// Sum of the pre-synaptic arrival offsets last recorded; with
    /// `arrival_count` it stands for their average.
    pub arrival_sum: i128,
    /// Number of pre-synaptic arrival offsets last recorded.
    pub arrival_count: usize,
}

/// The arrival offsets of a synapse for one post-synaptic spike.
pub struct ArrivalWindows {
    /// Offsets counted as pre-synaptic arrivals, most recent spike first.
    pub pre: Vec<i64>,
    /// Offsets in the post-window, most recent spike first.
    pub post: Vec<i64>,
    /// The delay is trainable and no pre-synaptic arrival was found: the
    /// delay is then to grow by the amount that the late arrivals give.
    pub needs_growth: bool,
}

impl View for Synapse {
    type V = SynapseView;

    open spec fn view(&self) -> SynapseView {
        SynapseView {
            id: self.id,
            pre_neuron: self.pre_neuron,
            post_neuron: self.post_neuron,
            weight: self.weight,
            delay: self.delay,
            pre_window: self.pre_window,
            post_window: self.post_window,
            delay_trainable: self.delay_trainable,
            weight_trainable: self.weight_trainable,
            partial_delay_learning: self.partial_delay_learning,
            declining_learning_rate: self.declining_learning_rate,
            delay_history: self.delay_history@,
            spikes: self.spikes@,
            spike_history: self.spike_history@,
            arrival_sum: self.arrival_sum,
            arrival_count: self.arrival_count,
        }
    }
}

/// A scan that stopped at `i` because the offset there lies beyond the
/// pre-window, or because the history ended, examined `window_end` offsets.
proof fn lemma_window_end(offs: Seq<int>, pre_window: int, i: int)
    requires
        0 <= i <= offs.len(),
        forall|j: int| 0 <= j < i ==> offs[j] <= pre_window,
        i == offs.len() || offs[i] > pre_window,
    ensures
        window_end(offs, pre_window) == i,
    decreases offs.len(),
{
    if offs.len() > 0 && i > 0 {
        assert forall|j: int| 0 <= j < i - 1 implies offs.drop_first()[j] <= pre_window by {
            assert(offs.drop_first()[j] == offs[j + 1]);
        }
        if i < offs.len() {
            assert(offs.drop_first()[i - 1] == offs[i]);
        }
        lemma_window_end(offs.drop_first(), pre_window, i - 1);
    }
}

impl Synapse {
    pub fn new(
        id: usize,
        pre_neuron: usize,
        post_neuron: usize,
        weight: i32,
        delay: u32,
        pre_window: i64,
        post_window: i64,
        delay_trainable: bool,
        weight_trainable: bool,
        partial_delay_learning: bool,
        declining_learning_rate: bool,
    ) -> (r: Self)
        ensures
            r@ == (SynapseView {
                id,
                pre_neuron,
                post_neuron,
                weight,
                delay,
                pre_window,
                post_window,
                delay_trainable,
                weight_trainable,
                partial_delay_learning,
                declining_learning_rate,
                delay_history: Seq::empty(),
                spikes: Seq::empty(),
                spike_history: Seq::empty(),
                arrival_sum: 0,
                arrival_count: 0,
            }),
    {
        Synapse {
            id,
            pre_neuron,
            post_neuron,
            weight,
            delay,
            pre_window,
            post_window,
            delay_trainable,
            weight_trainable,
            partial_delay_learning,
            declining_learning_rate,
            delay_history: Vec::new(),
            spikes: Vec::new(),
            spike_history: Vec::new(),
            arrival_sum: 0,
            arrival_count: 0,
        }
    }

    /// Sends a spike at `t` over the synapse.
    pub fn add_spike(&mut self, t: u32)
        ensures
            final(self)@ == old(self)@.add_spike(t),
    {
        self.spikes.push(t);
        self.spike_history.insert(0, t);
    }

    /// Collects the first pending spike that arrives at `t`: it is removed
    /// and the synapse's weight returned; with none, 0.
    pub fn get_spikes(&mut self, t: u32) -> (i: i32)
        ensures
            final(self)@ == old(self)@.collect(t),
            i == old(self)@.collected_input(t),
    {
        let n = self.spikes.len();
        let mut index: usize = 0;
        while index < n
            invariant
                n == self.spikes@.len(),
                index <= n,
                *self == *old(self),
                forall|j: int| 0 <= j < index ==> !#[trigger] arrives(self.spikes@[j], self.delay, t),
            decreases n - index,
        {
            if self.spikes[index] as u64 + self.delay as u64 == t as u64 {
                proof {
                    assert(is_first_arrival(self.spikes@, self.delay, t, index as int));
                    assert(has_arrival(self.spikes@, self.delay, t));
                    let k = first_arrival(self.spikes@, self.delay, t);
                    assert(is_first_arrival(self.spikes@, self.delay, t, k));
                    if k < index {
                        assert(!arrives(self.spikes@[k], self.delay, t));
                    }
                    if k > index {
                        assert(!arrives(self.spikes@[index as int], self.delay, t));
                    }
                }
                self.spikes.remove(index);
                assert(self@ =~= old(self)@.collect(t));
                return self.weight;
            }
            index += 1;
        }
        assert(!has_arrival(self.spikes@, self.delay, t));
        0
    }

    /// The recorded delays.
    pub fn get_spike_history(&mut self) -> (r: &mut Vec<(u32, u32)>)
        ensures
            *r == old(self).delay_history,
            final(self)@ == (SynapseView { delay_history: final(r)@, ..old(self)@ }),
    {
        &mut self.delay_history
    }

    /// Scans the spike history, most recent spike first, against a
    /// post-synaptic spike at `spike_time`, and records the pre-synaptic
    /// arrivals found (their sum and count). The scan ends at the first
    /// arrival beyond the pre-window; arrivals in the post-window are
    /// returned apart. Without delay training nothing is scanned.
    pub fn get_avg_arrival_t(&mut self, spike_time: u32) -> (r: ArrivalWindows)
        ensures
            final(self)@ == old(self)@.record_arrivals(spike_time),
            final(self).arrival_sum == sum_of(old(self)@.pre_arrivals(spike_time)),
            final(self).arrival_count == old(self)@.pre_arrivals(spike_time).len(),
            final(self).arrival_count == r.pre@.len(),
            as_ints(r.pre@) == old(self)@.pre_arrivals(spike_time),
            as_ints(r.post@) == old(self)@.post_arrivals(spike_time),
            r.needs_growth == (old(self).delay_trainable && r.pre@.len() == 0),
    {
        let mut pre: Vec<i64> = Vec::new();
        let mut post: Vec<i64> = Vec::new();
        let ghost offs = offsets(self.spike_history@, self.delay, spike_time);
        let ghost pre_pred = |d: int| in_pre_window(d, self.post_window as int);
        let ghost post_pred = |d: int| in_post_window(d, self.post_window as int);
        if self.delay_trainable {
            let n = self.spike_history.len();
            let mut i: usize = 0;
            let mut stopped = false;
            while i < n && !stopped
                invariant
                    n == self.spike_history@.len(),
                    offs == offsets(self.spike_history@, self.delay, spike_time),
                    pre_pred == (|d: int| in_pre_window(d, self.post_window as int)),
                    post_pred == (|d: int| in_post_window(d, self.post_window as int)),
                    i <= n,
                    !stopped ==> forall|j: int| 0 <= j < i ==> offs[j] <= self.pre_window,
                    stopped ==> i < n && offs[i as int] > self.pre_window && forall|j: int|
                        0 <= j < i ==> offs[j] <= self.pre_window,
                    as_ints(pre@) == offs.take(i as int).filter(pre_pred),
                    as_ints(post@) == offs.take(i as int).filter(post_pred),
                    forall|j: int| 0 <= j < pre@.len() ==> -0x2_0000_0000 <= #[trigger] pre@[j] <= 0x2_0000_0000,
                    *self == *old(self),
                decreases 2 * (n - i) + if stopped { 0int } else { 1int },
            {
                let s = self.spike_history[i];
                let t_dist: i64 = (s as i64 + self.delay as i64) - spike_time as i64;
                assert(t_dist == offs[i as int]);
                if t_dist as i128 > self.pre_window as i128 {
                    stopped = true;
                } else {
                    proof {
                        assert(offs.take(i + 1).drop_last() =~= offs.take(i as int));
                        assert(offs.take(i + 1) =~= offs.take(i as int).push(offs[i as int]));
                        offs.take(i as int).lemma_filter_push(offs[i as int], pre_pred);
                        offs.take(i as int).lemma_filter_push(offs[i as int], post_pred);
                    }
                    let ghost old_pre = pre@;
                    let ghost old_post = post@;
                    if t_dist < 0 && t_dist > self.post_window {
                        post.push(t_dist);
                    } else if t_dist != 0 {
                        pre.push(t_dist);
                    }
                    assert(as_ints(old_pre.push(t_dist)) =~= as_ints(old_pre).push(t_dist as int));
                    assert(as_ints(old_post.push(t_dist)) =~= as_ints(old_post).push(t_dist as int));
                    assert(as_ints(pre@) =~= offs.take(i + 1).filter(pre_pred));
                    assert(as_ints(post@) =~= offs.take(i + 1).filter(post_pred));
                    i += 1;
                }
            }
            proof {
                lemma_window_end(offs, self.pre_window as int, i as int);
            }
        }
        let ghost pre_offs = as_ints(pre@);
        let mut sum: i128 = 0;
        let m = pre.len();
        let mut k: usize = 0;
        while k < m
            invariant
                m == pre@.len(),
                pre_offs == as_ints(pre@),
                k <= m,
                sum == sum_of(pre_offs.take(k as int)),
                -(k as int) * 0x2_0000_0000 <= sum <= (k as int) * 0x2_0000_0000,
                forall|j: int| 0 <= j < m ==> -0x2_0000_0000 <= #[trigger] pre@[j] <= 0x2_0000_0000,
            decreases m - k,
        {
            assert(pre_offs.take(k + 1).drop_last() =~= pre_offs.take(k as int));
            sum = sum + pre[k] as i128;
            k += 1;
        }
        assert(pre_offs.take(m as int) =~= pre_offs);
        self.arrival_sum = sum;
        self.arrival_count = pre.len();
        let needs_growth = self.delay_trainable && pre.len() == 0;
        proof {
            assert(self@ =~= old(self)@.record_arrivals(spike_time));
        }
        ArrivalWindows { pre, post, needs_growth }
    }

    /// Shifts the delay by `shift` ticks, the shift capped at `MAX_DELAY`,
    /// keeping it at least `MIN_DELAY`.
    pub fn f_func(&mut self, shift: i64)
        requires
            old(self).delay + MAX_DELAY <= u32::MAX,
        ensures
            final(self)@ == old(self)@.shift_delay(shift as int),
    {
        let capped: i64 = if shift < MAX_DELAY as i64 {
            shift
        } else {
            MAX_DELAY as i64
        };
        let moved: i64 = if capped < -(u32::MAX as i64) {
            -(u32::MAX as i64)
        } else {
            capped
        } + self.delay as i64;
        if moved < MIN_DELAY as i64 {
            self.delay = MIN_DELAY;
        } else {
            self.delay = moved as u32;
        }
        assert(self@ =~= old(self)@.shift_delay(shift as int));
    }

    /// Grows the delay by `growth` ticks, capped at `MAX_DELAY`.
    pub fn g_func(&mut self, growth: u32)
        ensures
            final(self)@ == old(self)@.grow_delay(growth),
    {
        if (self.delay as u64) + (growth as u64) < MAX_DELAY as u64 {
            self.delay = self.delay + growth;
        } else {
            self.delay = MAX_DELAY;
        }
        assert(self@ =~= old(self)@.grow_delay(growth));
    }
}

/// A connection from an input generator to a neuron: it holds at most one
/// spike until it is collected.
#[derive(Clone, Copy, Debug, PartialEq, Eq)]
pub struct InputConnection {
    pub id: usize,
    pub input_i: usize,
    pub neuron_j: usize,
    pub spike: bool,
    /// Input delivered per spike, in tenths.
    pub weight: i32,
}

impl InputConnection {
    /// The connection with a spike waiting.
    pub open spec fn armed(self) -> InputConnection {
        InputConnection { spike: true, ..self }
    }

    /// The connection after its spike, if any, was collected.
    pub open spec fn drained(self) -> InputConnection {
        InputConnection { spike: false, ..self }
    }

    /// The input that collecting delivers.
    pub open spec fn delivered(self) -> int {
        if self.spike {
            self.weight as int
        } else {
            0
        }
    }

    pub fn new(id: usize, input_i: usize, neuron_j: usize, weight: i32) -> (r: Self)
        ensures
            r == (InputConnection { id, input_i, neuron_j, spike: false, weight }),
    {
        InputConnection { id, input_i, neuron_j, spike: false, weight }
    }

    /// Collects the waiting spike: its weight, or 0 when none waits.
    pub fn get_spike(&mut self, t: u32) -> (r: i32)
        ensures
            *final(self) == old(self).drained(),
            r == old(self).delivered(),
    {
        if self.spike {
            self.spike = false;
            self.weight
        } else {
            0
        }
    }

    /// A spike waits on the connection.
    pub fn add_spike(&mut self)
        ensures
            *final(self) == old(self).armed(),
    {
        self.spike = true;
    }
}

/// A spike put on an input connection is delivered once: collecting gives
/// the connection's weight, and collecting again gives nothing.
pub proof fn law_input_spike_delivered_once(c: InputConnection)
    ensures
        c.armed().delivered() == c.weight,
        c.armed().drained().delivered() == 0,
        c.armed().drained() == c.drained(),
{
}

/// A spike sent at `sent` over a synapse with nothing pending arrives
/// exactly one delay later: collecting then gives the synapse's weight and
/// leaves nothing pending, so that collecting again gives nothing;
/// collecting at any other time gives nothing and keeps the spike.
pub proof fn law_spike_arrives_after_delay(syn: SynapseView, sent: u32, t: u32)
    requires
        syn.spikes.len() == 0,
    ensures
        t == sent + syn.delay ==> {
            &&& syn.add_spike(sent).collected_input(t) == syn.weight
            &&& syn.add_spike(sent).collect(t).spikes.len() == 0
            &&& syn.add_spike(sent).collect(t).collected_input(t) == 0
        },
        t != sent + syn.delay ==> {
            &&& syn.add_spike(sent).collected_input(t) == 0
            &&& syn.add_spike(sent).collect(t) == syn.add_spike(sent)
        },
{
    let a = syn.add_spike(sent);
    assert(a.spikes =~= seq![sent]);
    if t == sent + syn.delay {
        assert(arrives(a.spikes[0], a.delay, t));
        assert(has_arrival(a.spikes, a.delay, t));
        assert(is_first_arrival(a.spikes, a.delay, t, 0));
        let k = first_arrival(a.spikes, a.delay, t);
        assert(is_first_arrival(a.spikes, a.delay, t, k));
        assert(k == 0);
        assert(a.collect(t).spikes.len() == 0);
        assert(!has_arrival(a.collect(t).spikes, a.delay, t));
    } else {
        assert(!has_arrival(a.spikes, a.delay, t)) by {
            if has_arrival(a.spikes, a.delay, t) {
                let k = choose|k: int| 0 <= k < a.spikes.len() && #[trigger] arrives(a.spikes[k], a.delay, t);
                assert(k == 0);
            }
        }
    }
}

/// Learning keeps delays in bounds: a shift never leaves a delay below
/// `MIN_DELAY` nor raises it by more than `MAX_DELAY`; growth never lowers
/// a delay within the bound, and never takes one above `MAX_DELAY`.
pub proof fn law_delay_bounds(syn: SynapseView, shift: int, growth: u32)
    requires
        syn.delay + MAX_DELAY <= u32::MAX,
    ensures
        syn.shift_delay(shift).delay >= MIN_DELAY,
        syn.shift_delay(shift).delay <= syn.delay + MAX_DELAY,
        syn.grow_delay(growth).delay <= MAX_DELAY,
        syn.delay <= MAX_DELAY ==> syn.grow_delay(growth).delay >= syn.delay,
{
}

/// Recording arrivals learns nothing by itself: the delay, the weight and
/// the pending spikes stay as they were.
pub proof fn law_recording_keeps_delay(syn: SynapseView, at: u32)
    ensures
        syn.record_arrivals(at).delay == syn.delay,
        syn.record_arrivals(at).weight == syn.weight,
        syn.record_arrivals(at).spikes == syn.spikes,
        syn.record_arrivals(at).spike_history == syn.spike_history,
{
}

/// A delay shift moves the delay the way of the shift, and a larger shift
/// leaves a delay no shorter: an early synapse (negative shift) gets no
/// longer, a late one (positive shift) no shorter.
pub proof fn law_shift_delay_monotone(syn: SynapseView, shift1: int, shift2: int)
    requires
        shift1 <= shift2,
        syn.delay + MAX_DELAY <= u32::MAX,
    ensures
        syn.shift_delay(shift1).delay <= syn.shift_delay(shift2).delay,
        shift1 <= 0 && syn.delay >= MIN_DELAY ==> syn.shift_delay(shift1).delay <= syn.delay,
        shift2 >= 0 ==> syn.shift_delay(shift2).delay >= syn.delay,
{
}

/// A larger growth leaves a delay no shorter.
pub proof fn law_grow_delay_monotone(syn: SynapseView, growth1: u32, growth2: u32)
    requires
        growth1 <= growth2,
    ensures
        syn.grow_delay(growth1).delay <= syn.grow_delay(growth2).delay,
{
}

/// The scan ends within the offsets.
proof fn lemma_window_end_bound(offs: Seq<int>, pre_window: int)
    ensures
        window_end(offs, pre_window) <= offs.len(),
    decreases offs.len(),
{
    if offs.len() > 0 && offs[0] <= pre_window {
        lemma_window_end_bound(offs.drop_first(), pre_window);
    }
}

/// Recording counts every pre-synaptic arrival it finds, and no more
/// arrivals than the synapse carried spikes: the recorded count is the
/// number of offsets in the pre-window, so the recorded sum over the count
/// is their mean.
pub proof fn law_recorded_count(syn: SynapseView, at: u32)
    requires
        syn.spike_history.len() <= usize::MAX,
    ensures
        syn.pre_arrivals(at).len() <= syn.spike_history.len(),
        syn.record_arrivals(at).arrival_count == syn.pre_arrivals(at).len(),
{
    if syn.delay_trainable {
        let offs = offsets(syn.spike_history, syn.delay, at);
        lemma_window_end_bound(offs, syn.pre_window as int);
        let taken = offs.take(window_end(offs, syn.pre_window as int) as int);
        taken.lemma_filter_len(|d: int| in_pre_window(d, syn.post_window as int));
    }
}

} // verus!
