//! The evolution of networks: the initial individuals, the choice of the
//! best after each generation, and the next generation bred from them.
use vstd::prelude::*;
use rayon::iter::{IntoParallelIterator, ParallelIterator};
use itertools::Itertools;
use crate::chance::choose_of_two;
use crate::connections::InputConnection;
use crate::input::InputView;
use crate::parameters::{Parameters, ParametersView};
use crate::population::{Population, PopulationView, fresh_population};

verus! {

/// The character of decimal digit `d`.
pub open spec fn digit_char(d: int) -> char {
    (48 + d) as char
}

/// The decimal representation of `n`, without leading zeros.
pub open spec fn decimal(n: nat) -> Seq<char>
    decreases n,
{
    if n < 10 {
        seq![digit_char(n as int)]
    } else {
        decimal(n / 10).push(digit_char((n % 10) as int))
    }
}

/// The string of one decimal digit.
fn digit_str(d: u64) -> (r: &'static str)
    requires
        d < 10,
    ensures
        r@ == seq![digit_char(d as int)],
{
    proof {
        reveal_strlit("0");
        reveal_strlit("1");
        reveal_strlit("2");
        reveal_strlit("3");
        reveal_strlit("4");
        reveal_strlit("5");
        reveal_strlit("6");
        reveal_strlit("7");
        reveal_strlit("8");
        reveal_strlit("9");
    }
    let r = if d == 0 {
        "0"
    } else if d == 1 {
        "1"
    } else if d == 2 {
        "2"
    } else if d == 3 {
        "3"
    } else if d == 4 {
        "4"
    } else if d == 5 {
        "5"
    } else if d == 6 {
        "6"
    } else if d == 7 {
        "7"
    } else if d == 8 {
        "8"
    } else {
        "9"
    };
    assert(r@ =~= seq![digit_char(d as int)]);
    r
}

/// Appends the decimal representation of `n` to `s`.
pub fn push_decimal(s: &mut String, n: u64)
    ensures
        final(s)@ == old(s)@ + decimal(n as nat),
    decreases n,
{
    if n >= 10 {
        push_decimal(s, n / 10);
    }
    s.append(digit_str(n % 10));
    assert(s@ =~= old(s)@ + decimal(n as nat)) by {
        if n >= 10 {
            assert(decimal(n as nat) == decimal((n / 10) as nat).push(digit_char((n % 10) as int)));
        }
    }
}

/// Number of input generators of a network: one per neuron of the first
/// 256.
pub const INPUT_COUNT: usize = 256;

/// Weight of the input connections, in tenths: 30.
pub const INPUT_WEIGHT: i32 = 300;

/// The name of the individual whose inputs fire more often.
pub open spec fn busy_individual() -> Seq<char> {
    seq!['i', 'n', 'd', '6']
}

/// Firing probability of the inputs of a network named `name`, in
/// thousandths.
pub open spec fn input_probability(name: Seq<char>) -> u32 {
    if name == busy_individual() {
        900
    } else {
        200
    }
}

/// Input generator `k` of a network named `name`: it fires at random with
/// the network's input probability and feeds neuron `k`.
pub open spec fn network_input(name: Seq<char>, k: int) -> InputView {
    InputView {
        id: k as usize,
        spikes: Seq::empty(),
        spike_times: Seq::empty(),
        p: input_probability(name),
        input_connections: seq![
            InputConnection {
                id: k as usize,
                input_i: k as usize,
                neuron_j: k as usize,
                spike: false,
                weight: INPUT_WEIGHT,
            },
        ],
    }
}

/// The width of the layers of a network of `n` neurons in `l` layers: `n`
/// divided by `l`, rounded toward zero.
pub open spec fn layer_width(n: i32, l: i32) -> int {
    let q = magnitude(n) / magnitude(l);
    if (n < 0) == (l < 0) {
        q
    } else {
        -q
    }
}

/// The absolute value of `x`.
pub open spec fn magnitude(x: i32) -> int {
    if x < 0 {
        -(x as int)
    } else {
        x as int
    }
}

/// The genes that a build reads can be built into a network: `n` can be
/// divided by the layer count `l` (which is not 0, and not -1 when `n` is
/// the least `i32`, where the quotient overflows), and the spans are
/// ordered wherever a synapse may be drawn.
pub open spec fn genes_ok(n: i32, l: i32, p: u32, d_span: (u32, u32), w_span: (i32, i32)) -> bool {
    &&& l != 0
    &&& !(l == -1 && n == i32::MIN)
    &&& l >= 2 && layer_width(n, l) > 0 && p > 0 ==> d_span.0 <= d_span.1 && w_span.0 <= w_span.1
}

/// The parameters can be built into a network: a layer count, a connection
/// probability and a seed, with genes that can be built.
pub open spec fn buildable(params: ParametersView) -> bool {
    &&& params.l is Some
    &&& params.p is Some
    &&& params.seed is Some
    &&& genes_ok(params.n, params.l.unwrap(), params.p.unwrap(), params.d_span, params.w_span)
}

/// `pop` is a network built from `params`: a feed-forward build of
/// `params.l` layers of `layer_width(params.n, params.l)` neurons on a fresh
/// population named after the parameters, then the network's inputs. It
/// starts clean: no neuron has fired, and none collects an input
/// connection.
pub open spec fn network_built(params: ParametersView, pop: PopulationView) -> bool {
    let l = params.l.unwrap();
    let built = PopulationView { inputs: Seq::empty(), input_id: 0, input_connection_id: 0, ..pop };
    &&& pop.wf()
    &&& built.feed_forward_from(
        fresh_population(params.name),
        l,
        layer_width(params.n, l) as i32,
        params.p.unwrap(),
        params.declining_learning_rate,
        params.w_learning_p,
        params.w_span,
        params.partial_d,
        params.d_learning_p,
        params.d_span,
        params.seed.unwrap(),
    )
    &&& pop.inputs == Seq::new(INPUT_COUNT as nat, |k: int| network_input(params.name, k))
    &&& pop.input_id == INPUT_COUNT
    &&& pop.input_connection_id == INPUT_COUNT
    &&& forall|i: int|
        0 <= i < pop.neurons.len() ==> {
            &&& (#[trigger] pop.neurons[i]).spikes.len() == 0
            &&& pop.neurons[i].input_connections.len() == 0
        }
}

/// Builds the network that `parameters` describe: a feed-forward network
/// of `l` layers of `n / l` neurons, and one input generator for each of
/// the first 256 neurons, firing with probability 0.9 for the individual
/// "ind6" and 0.2 for any other.
pub fn create_network(parameters: Parameters) -> (pop: Population)
    requires
        buildable(parameters@),
    ensures
        network_built(parameters@, pop@),
{
    let mut pop = Population::new(parameters.name.clone());
    let l = parameters.l.unwrap();
    let n = parameters.n;
    let an: i64 = if n < 0 {
        -(n as i64)
    } else {
        n as i64
    };
    let al: i64 = if l < 0 {
        -(l as i64)
    } else {
        l as i64
    };
    let q: i64 = an / al;
    proof {
        assert(0 <= al * q <= an) by (nonlinear_arith)
            requires al > 0, an >= 0, q == an / al;
        assert(q <= an) by (nonlinear_arith)
            requires al > 0, an >= 0, 0 <= al * q <= an;
        if al >= 2 {
            assert(2 * q <= an) by (nonlinear_arith)
                requires al >= 2, q >= 0, al * q <= an;
        }
    }
    let npl: i32 = if (n < 0) == (l < 0) {
        q as i32
    } else {
        (-q) as i32
    };
    proof {
        let li = l as int;
        let p = npl as int;
        assert(npl == layer_width(n, l));
        if n >= 0 {
            if l > 0 {
                assert(li * p == al * q) by (nonlinear_arith)
                    requires li == al, p == q;
            } else {
                assert(li * p == al * q) by (nonlinear_arith)
                    requires li == -al, p == -q;
            }
            assert(0 <= li * p <= n);
        } else {
            if l > 0 {
                assert(li * p == -(al * q)) by (nonlinear_arith)
                    requires li == al, p == -q;
            } else {
                assert(li * p == -(al * q)) by (nonlinear_arith)
                    requires li == -al, p == q;
            }
            assert(n <= li * p <= 0);
        }
    }
    let ghost start = pop@;
    pop.create_feed_forward(
        l,
        npl,
        parameters.p.unwrap(),
        parameters.declining_learning_rate,
        parameters.w_learning_p,
        parameters.w_span,
        parameters.partial_d,
        parameters.d_learning_p,
        parameters.d_span,
        parameters.seed.unwrap(),
    );
    let ghost built = pop@;
    let busy = String::from_str("ind6");
    proof {
        reveal_strlit("ind6");
        assert(busy@ =~= busy_individual());
    }
    let special = parameters.name == busy;
    let mut inp: usize = 0;
    while inp < INPUT_COUNT
        invariant
            inp <= INPUT_COUNT,
            special == (parameters@.name == busy_individual()),
            pop@.wf(),
            pop@ == (PopulationView {
                inputs: Seq::new(inp as nat, |k: int| network_input(parameters@.name, k)),
                input_id: inp,
                input_connection_id: inp,
                ..built
            }),
            built.inputs == Seq::<InputView>::empty(),
            built.input_id == 0,
            built.input_connection_id == 0,
            built.name == parameters@.name,
        decreases INPUT_COUNT - inp,
    {
        let p: u32 = if special {
            900
        } else {
            200
        };
        let mut targets: Vec<usize> = Vec::new();
        targets.push(inp);
        let ghost before = pop@;
        pop.create_input(targets, p, Vec::new(), INPUT_WEIGHT);
        proof {
            let expected = Seq::new((inp + 1) as nat, |k: int| network_input(parameters@.name, k));
            assert(pop@.inputs.last().input_connections =~= network_input(parameters@.name, inp as int).input_connections);
            assert(pop@.inputs.last() =~= network_input(parameters@.name, inp as int));
            assert(pop@.inputs =~= expected);
            assert(pop@ =~= PopulationView {
                inputs: expected,
                input_id: (inp + 1) as usize,
                input_connection_id: (inp + 1) as usize,
                ..built
            });
        }
        inp += 1;
    }
    proof {
        assert(PopulationView { inputs: Seq::empty(), input_id: 0, input_connection_id: 0, ..pop@ } =~= built);
    }
    pop
}

/// The name of individual `id`: "ind" followed by `id` in decimal.
pub open spec fn individual_name(id: nat) -> Seq<char> {
    seq!['i', 'n', 'd'] + decimal(id)
}

/// Writes the name of individual `id`.
pub fn name_individual(id: u64) -> (r: String)
    ensures
        r@ == individual_name(id as nat),
{
    let mut r = String::from_str("ind");
    proof {
        reveal_strlit("ind");
        assert(r@ =~= seq!['i', 'n', 'd']);
    }
    push_decimal(&mut r, id);
    r
}

/// Learning rates of the initial individuals, in thousandths.
pub open spec fn initial_rates() -> Seq<u32> {
    seq![
        100, 200, 300, 1000, 1000, 1000, 1000, 100, 200, 300,
        1000, 1000, 1000, 1000, 1000, 1000, 1000, 100, 200, 300,
        1000, 1000, 1000, 1000, 1000, 1000, 100, 200, 300, 1000,
        1000, 1000,
    ]
}

/// Lower ends of the weight spans of the initial individuals, in tenths.
pub open spec fn initial_weight_lows() -> Seq<i32> {
    seq![
        10, 10, 10, 50, 100, 10, 100, 10, 100, 150,
        10, 10, 10, 10, 10, 10, 10, 10, 10, 100,
        100, 200, 100, 10, 10, 10, 10, 10, 10, 10,
        10, 10,
    ]
}

/// Upper ends of the weight spans of the initial individuals, in tenths.
pub open spec fn initial_weight_highs() -> Seq<i32> {
    seq![
        100, 150, 200, 100, 200, 200, 150, 50, 200, 300,
        300, 200, 200, 200, 300, 200, 300, 200, 300, 100,
        100, 200, 200, 200, 200, 200, 200, 200, 200, 200,
        200, 200,
    ]
}

/// Delay learning probabilities of the initial individuals, in thousandths.
pub open spec fn initial_delay_learning() -> Seq<u32> {
    seq![
        1000, 800, 1000, 1000, 1000, 1000, 1000, 1000, 1000, 100,
        1000, 1000, 1000, 500, 1000, 1000, 300, 1000, 1000, 1000,
        1000, 800, 1000, 1000, 1000, 1000, 1000, 1000, 1000, 1000,
        1000, 1000,
    ]
}

/// Number of initial individuals.
pub const INITIAL_INDIVIDUALS: usize = 32;

/// Parameters of initial individual `k` (named "ind{k + 1}"): 256 neurons
/// in `k % 5 + 1` layers, connection probability `(k % 10 + 1) / 10`, delays
/// from 1 ms to 20 ms, partial delay learning for the last two, seed 1.
pub open spec fn initial_parameters(k: int) -> ParametersView {
    crate::parameters::feed_forward_view(
        individual_name((k + 1) as nat),
        256,
        ((k % 10 + 1) * 100) as u32,
        (k % 5 + 1) as i32,
        initial_rates()[k],
        1000,
        (initial_weight_lows()[k], initial_weight_highs()[k]),
        k >= 30,
        initial_delay_learning()[k],
        (10, 200),
        1,
    )
}

/// The parameters of the initial individuals.
pub fn individual_parameters() -> (r: Vec<Parameters>)
    ensures
        r@.len() == INITIAL_INDIVIDUALS,
        forall|k: int| 0 <= k < INITIAL_INDIVIDUALS ==> #[trigger] r@[k]@ == initial_parameters(k),
{
    let rates: Vec<u32> = vec![
        100, 200, 300, 1000, 1000, 1000, 1000, 100, 200, 300,
        1000, 1000, 1000, 1000, 1000, 1000, 1000, 100, 200, 300,
        1000, 1000, 1000, 1000, 1000, 1000, 100, 200, 300, 1000,
        1000, 1000,
    ];
    let weight_lows: Vec<i32> = vec![
        10, 10, 10, 50, 100, 10, 100, 10, 100, 150,
        10, 10, 10, 10, 10, 10, 10, 10, 10, 100,
        100, 200, 100, 10, 10, 10, 10, 10, 10, 10,
        10, 10,
    ];
    let weight_highs: Vec<i32> = vec![
        100, 150, 200, 100, 200, 200, 150, 50, 200, 300,
        300, 200, 200, 200, 300, 200, 300, 200, 300, 100,
        100, 200, 200, 200, 200, 200, 200, 200, 200, 200,
        200, 200,
    ];
    let delay_learning: Vec<u32> = vec![
        1000, 800, 1000, 1000, 1000, 1000, 1000, 1000, 1000, 100,
        1000, 1000, 1000, 500, 1000, 1000, 300, 1000, 1000, 1000,
        1000, 800, 1000, 1000, 1000, 1000, 1000, 1000, 1000, 1000,
        1000, 1000,
    ];
    assert(rates@ =~= initial_rates());
    assert(weight_lows@ =~= initial_weight_lows());
    assert(weight_highs@ =~= initial_weight_highs());
    assert(delay_learning@ =~= initial_delay_learning());
    let mut r: Vec<Parameters> = Vec::new();
    let mut k: usize = 0;
    while k < INITIAL_INDIVIDUALS
        invariant
            k <= INITIAL_INDIVIDUALS,
            rates@ == initial_rates(),
            weight_lows@ == initial_weight_lows(),
            weight_highs@ == initial_weight_highs(),
            delay_learning@ == initial_delay_learning(),
            r@.len() == k,
            forall|k2: int| 0 <= k2 < k ==> #[trigger] r@[k2]@ == initial_parameters(k2),
        decreases INITIAL_INDIVIDUALS - k,
    {
        let name = name_individual((k + 1) as u64);
        let params = Parameters::new_FeedForward(
            name,
            256,
            ((k % 10 + 1) * 100) as u32,
            (k % 5 + 1) as i32,
            rates[k],
            1000,
            (weight_lows[k], weight_highs[k]),
            k >= 30,
            delay_learning[k],
            (10, 200),
            1,
        );
        r.push(params);
        proof {
            assert forall|k2: int| 0 <= k2 < k + 1 implies #[trigger] r@[k2]@ == initial_parameters(k2) by {
                if k2 == k {
                    assert(r@[k2]@ =~= initial_parameters(k2));
                }
            }
        }
        k += 1;
    }
    r
}

/// Builds the network of each parameter set, in parallel, with `rayon`.
///
/// Calls `rayon`'s `into_par_iter`, `map` and `collect` into a `Vec`, which
/// the crate documents as preserving the order of the items; `map` applies
/// `create_network`, a verified function of this library, to each item.
/// The contract claims that the result holds, in order, one network for
/// each parameter set, built as `create_network` promises.
#[verifier::external_body]
fn create_networks(params: Vec<Parameters>) -> (r: Vec<Population>)
    requires
        forall|k: int| 0 <= k < params@.len() ==> buildable(#[trigger] params@[k]@),
    ensures
        r@.len() == params@.len(),
        forall|k: int| 0 <= k < params@.len() ==> network_built(#[trigger] params@[k]@, r@[k]@),
{
    params.into_par_iter().map(create_network).collect()
}

/// The initial individuals: the networks of the initial parameters, built
/// in parallel.
pub fn get_individuals() -> (r: Vec<Population>)
    ensures
        r@.len() == INITIAL_INDIVIDUALS,
        forall|k: int| 0 <= k < INITIAL_INDIVIDUALS ==> network_built(initial_parameters(k), #[trigger] r@[k]@),
{
    let params = individual_parameters();
    proof {
        assert forall|k: int| 0 <= k < params@.len() implies buildable(#[trigger] params@[k]@) by {
            let pk = params@[k]@;
            assert(pk == initial_parameters(k));
            assert(initial_weight_lows()[k] <= initial_weight_highs()[k]);
        }
    }
    let ghost params_view = params@;
    let r = create_networks(params);
    proof {
        assert forall|k: int| 0 <= k < INITIAL_INDIVIDUALS implies network_built(initial_parameters(k), #[trigger] r@[k]@) by {
            assert(params_view[k]@ == initial_parameters(k));
        }
    }
    r
}

/// One of two values: the first when `c` holds.
pub open spec fn pick<T>(c: bool, x: T, y: T) -> T {
    if c {
        x
    } else {
        y
    }
}

/// A child that takes each gene that a build reads from `a` or from `b`,
/// as the flags say, can be built.
pub open spec fn genes_buildable(
    a: ParametersView,
    b: ParametersView,
    cn: bool,
    cl: bool,
    cp: bool,
    cd: bool,
    cw: bool,
) -> bool {
    let n = pick(cn, a.n, b.n);
    let l = pick(cl, a.l, b.l).unwrap();
    let p = pick(cp, a.p, b.p).unwrap();
    let d_span = pick(cd, a.d_span, b.d_span);
    let w_span = pick(cw, a.w_span, b.w_span);
    genes_ok(n, l, p, d_span, w_span)
}

/// Every child of `a` and `b` can be built, whichever genes it takes.
pub open spec fn crossover_buildable(a: ParametersView, b: ParametersView) -> bool {
    forall|cn: bool, cl: bool, cp: bool, cd: bool, cw: bool|
        #[trigger] genes_buildable(a, b, cn, cl, cp, cd, cw)
}

/// `child` is a feed-forward parameter set named after `id` whose every
/// gene comes from `a` or from `b`.
pub open spec fn inherits(child: ParametersView, a: ParametersView, b: ParametersView, id: nat) -> bool {
    &&& child.name == individual_name(id)
    &&& child.topology == crate::parameters::feed_forward_name()
    &&& child.k is None
    &&& child.m is None
    &&& child.n == a.n || child.n == b.n
    &&& child.p == a.p || child.p == b.p
    &&& child.l == a.l || child.l == b.l
    &&& child.declining_learning_rate == a.declining_learning_rate || child.declining_learning_rate
        == b.declining_learning_rate
    &&& child.w_learning_p == a.w_learning_p || child.w_learning_p == b.w_learning_p
    &&& child.w_span == a.w_span || child.w_span == b.w_span
    &&& child.partial_d == a.partial_d || child.partial_d == b.partial_d
    &&& child.d_learning_p == a.d_learning_p || child.d_learning_p == b.d_learning_p
    &&& child.d_span == a.d_span || child.d_span == b.d_span
    &&& child.seed == a.seed || child.seed == b.seed
}

/// Breeds a child of `a` and `b`, named after `id`: each gene is taken at
/// random from one of the two.
pub fn crossover(a: &Parameters, b: &Parameters, id: u64) -> (r: Parameters)
    requires
        a.p is Some,
        b.p is Some,
        a.l is Some,
        b.l is Some,
        a.seed is Some,
        b.seed is Some,
    ensures
        inherits(r@, a@, b@, id as nat),
        r.p is Some,
        r.l is Some,
        r.seed is Some,
{
    let n = choose_of_two(a.n, b.n);
    let p = choose_of_two(a.p, b.p).unwrap();
    let l = choose_of_two(a.l, b.l).unwrap();
    let declining_learning_rate = choose_of_two(a.declining_learning_rate, b.declining_learning_rate);
    let w_learning_p = choose_of_two(a.w_learning_p, b.w_learning_p);
    let w_span = choose_of_two(a.w_span, b.w_span);
    let partial_d = choose_of_two(a.partial_d, b.partial_d);
    let d_learning_p = choose_of_two(a.d_learning_p, b.d_learning_p);
    let d_span = choose_of_two(a.d_span, b.d_span);
    let seed = choose_of_two(a.seed, b.seed).unwrap();
    let name = name_individual(id);
    Parameters::new_FeedForward(
        name,
        n,
        p,
        l,
        declining_learning_rate,
        w_learning_p,
        w_span,
        partial_d,
        d_learning_p,
        d_span,
        seed,
    )
}

/// The pairs `(i, j)` with `start <= i < j < n`, in lexicographic order.
pub open spec fn pairs_from(start: int, n: int) -> Seq<(usize, usize)>
    decreases n - start,
{
    if start >= n {
        Seq::empty()
    } else {
        Seq::new((n - start - 1) as nat, |k: int| (start as usize, (start + 1 + k) as usize))
            + pairs_from(start + 1, n)
    }
}

/// Every pair of `pairs_from(start, n)` has `start <= i < j < n`.
proof fn lemma_pairs_from_in_range(start: int, n: int)
    requires
        0 <= start,
        n <= usize::MAX,
    ensures
        forall|k: int|
            0 <= k < pairs_from(start, n).len() ==> start <= (#[trigger] pairs_from(start, n)[k]).0 < pairs_from(start, n)[k].1 < n,
    decreases n - start,
{
    if start < n {
        lemma_pairs_from_in_range(start + 1, n);
        let head = Seq::new((n - start - 1) as nat, |k: int| (start as usize, (start + 1 + k) as usize));
        let rest = pairs_from(start + 1, n);
        assert forall|k: int| 0 <= k < pairs_from(start, n).len() implies start <= (#[trigger] pairs_from(start, n)[k]).0 < pairs_from(start, n)[k].1 < n by {
            if k < head.len() {
                assert(pairs_from(start, n)[k] == head[k]);
            } else {
                assert(pairs_from(start, n)[k] == rest[k - head.len()]);
            }
        }
    }
}

/// The pairs `(i, j)` with `i < j < n`, in lexicographic order.
pub open spec fn index_pairs(n: nat) -> Seq<(usize, usize)> {
    pairs_from(0, n as int)
}

/// Entry `q` of the pairs of `0..n` is a pair of valid positions.
proof fn lemma_pairs_in_range(n: int, q: int)
    requires
        0 <= n <= usize::MAX,
        0 <= q < index_pairs(n as nat).len(),
    ensures
        index_pairs(n as nat)[q].0 < index_pairs(n as nat)[q].1 < n,
{
    lemma_pairs_from_in_range(0, n);
    assert(index_pairs(n as nat) == pairs_from(0, n));
}

/// The two-element combinations of `0..n`, by `itertools`.
///
/// Calls `Itertools::combinations(2)` on the range `0..n` and turns each
/// combination into a pair. The crate documents that the combinations come
/// in lexicographic order of the input positions (its examples show
/// `(1..5).combinations(3)` as `[1, 2, 3], [1, 2, 4], [1, 3, 4], [2, 3, 4]`),
/// each of them once: the contract claims exactly the pairs `i < j < n` in
/// that order.
#[verifier::external_body]
fn pair_indices(n: usize) -> (r: Vec<(usize, usize)>)
    ensures
        r@ == index_pairs(n as nat),
{
    (0..n).combinations(2).map(|c| (c[0], c[1])).collect()
}

/// `pop` is the network of a child of `a` and `b` named after `id`.
pub open spec fn bred(a: ParametersView, b: ParametersView, id: nat, pop: PopulationView) -> bool {
    exists|child: ParametersView| #[trigger] inherits(child, a, b, id) && network_built(child, pop)
}

/// A scored individual, as the library sees it.
pub open spec fn entry_view(e: (u64, Option<Parameters>)) -> (u64, Option<ParametersView>) {
    (
        e.0,
        match e.1 {
            Some(p) => Some(p@),
            None => None,
        },
    )
}

/// Scored individuals, as the library sees them.
pub open spec fn entries_view(v: Seq<(u64, Option<Parameters>)>) -> Seq<(u64, Option<ParametersView>)> {
    v.map_values(|e: (u64, Option<Parameters>)| entry_view(e))
}

/// The pairs of individuals that breed: those whose first member is a
/// feed-forward network, in lexicographic order.
pub open spec fn breeding_pairs(best: Seq<(u64, Option<ParametersView>)>) -> Seq<(usize, usize)> {
    index_pairs(best.len()).filter(
        |pr: (usize, usize)| best[pr.0 as int].1.unwrap().topology == crate::parameters::feed_forward_name(),
    )
}

/// Whether generation `generation` of `generations` stores its data: only
/// the last one does.
pub fn stores_data(generation: i32, generations: i32) -> (r: bool)
    ensures
        r == (generation + 1 == generations),
{
    generation as i64 + 1 == generations as i64
}

/// `a` and `b` can be bred: both carry a probability, a layer count and a
/// seed, and every child of the two can be built.
pub open spec fn can_breed(a: ParametersView, b: ParametersView) -> bool {
    &&& a.p is Some && a.l is Some && a.seed is Some
    &&& b.p is Some && b.l is Some && b.seed is Some
    &&& crossover_buildable(a, b)
}

/// The individuals can be rebuilt and bred as the next generation reads
/// them: each of the last `top_n` has parameters that can be built, each
/// one that comes first in a pair has parameters, and for each pair whose
/// first member is a feed-forward network the second has parameters and
/// the two can be bred.
pub open spec fn breedable(best: Seq<(u64, Option<ParametersView>)>, top_n: int) -> bool {
    &&& forall|k: int|
        best.len() - top_n <= k < best.len() ==> ((#[trigger] best[k]).1 is Some && buildable(best[k].1.unwrap()))
    &&& forall|i: int| 0 <= i < best.len() - 1 ==> (#[trigger] best[i]).1 is Some
    &&& forall|i: int, j: int|
        0 <= i < j < best.len() && (#[trigger] best[i]).1.unwrap().topology == crate::parameters::feed_forward_name()
            ==> (#[trigger] best[j]).1 is Some && can_breed(best[i].1.unwrap(), best[j].1.unwrap())
}

/// The next generation: the networks of the last `top_n` individuals of
/// `best`, rebuilt from their parameters, and then, for each pair of
/// individuals in lexicographic order whose first member is a feed-forward
/// network, the network of a child of the two, named after the next id.
/// Returns the networks and the id after the last one used.
pub fn next_generation(best: &Vec<(u64, Option<Parameters>)>, top_n: usize, next_id: u64) -> (r: (
    Vec<Population>,
    u64,
))
    requires
        top_n <= best@.len(),
        breedable(entries_view(best@), top_n as int),
        next_id + index_pairs(best@.len()).len() <= u64::MAX,
    ensures
        r.0@.len() == top_n + breeding_pairs(entries_view(best@)).len(),
        r.1 == next_id + breeding_pairs(entries_view(best@)).len(),
        forall|k: int|
            0 <= k < top_n ==> network_built(
                entries_view(best@)[best@.len() - top_n + k].1.unwrap(),
                #[trigger] r.0@[k]@,
            ),
        forall|c: int|
            0 <= c < breeding_pairs(entries_view(best@)).len() ==> bred(
                entries_view(best@)[breeding_pairs(entries_view(best@))[c].0 as int].1.unwrap(),
                entries_view(best@)[breeding_pairs(entries_view(best@))[c].1 as int].1.unwrap(),
                (next_id + c) as nat,
                #[trigger] r.0@[top_n + c]@,
            ),
{
    let ghost bv = entries_view(best@);
    let ghost fp = breeding_pairs(bv);
    let len = best.len();
    let start = len - top_n;
    let mut pops: Vec<Population> = Vec::new();
    let mut k: usize = start;
    while k < len
        invariant
            bv == entries_view(best@),
            len == best@.len(),
            start == len - top_n,
            start <= k <= len,
            breedable(bv, top_n as int),
            pops@.len() == k - start,
            forall|k2: int| 0 <= k2 < k - start ==> network_built(bv[start + k2].1.unwrap(), #[trigger] pops@[k2]@),
        decreases len - k,
    {
        proof {
            assert(bv[k as int] == entry_view(best@[k as int]));
            assert(bv[k as int].1 is Some && buildable(bv[k as int].1.unwrap()));
        }
        let params = best[k].1.as_ref().unwrap().duplicate();
        let pop = create_network(params);
        pops.push(pop);
        k += 1;
    }
    let pairs = pair_indices(len);
    let ghost ff = |pr: (usize, usize)| bv[pr.0 as int].1.unwrap().topology == crate::parameters::feed_forward_name();
    let mut id = next_id;
    let n_pairs = pairs.len();
    let mut q: usize = 0;
    while q < n_pairs
        invariant
            bv == entries_view(best@),
            len == best@.len(),
            start == len - top_n,
            breedable(bv, top_n as int),
            pairs@ == index_pairs(len as nat),
            n_pairs == pairs@.len(),
            next_id + n_pairs <= u64::MAX,
            ff == (|pr: (usize, usize)| bv[pr.0 as int].1.unwrap().topology == crate::parameters::feed_forward_name()),
            q <= n_pairs,
            id == next_id + pairs@.take(q as int).filter(ff).len(),
            pops@.len() == top_n + pairs@.take(q as int).filter(ff).len(),
            forall|k2: int| 0 <= k2 < top_n ==> network_built(bv[start + k2].1.unwrap(), #[trigger] pops@[k2]@),
            forall|c: int|
                0 <= c < pairs@.take(q as int).filter(ff).len() ==> bred(
                    bv[pairs@.take(q as int).filter(ff)[c].0 as int].1.unwrap(),
                    bv[pairs@.take(q as int).filter(ff)[c].1 as int].1.unwrap(),
                    (next_id + c) as nat,
                    #[trigger] pops@[top_n + c]@,
                ),
        decreases n_pairs - q,
    {
        let ghost done = pairs@.take(q as int).filter(ff);
        let ghost old_pops = pops@;
        proof {
            lemma_pairs_in_range(len as int, q as int);
            assert(pairs@.take(q + 1) =~= pairs@.take(q as int).push(pairs@[q as int]));
            pairs@.take(q as int).lemma_filter_push(pairs@[q as int], ff);
            pairs@.take(q as int).lemma_filter_len(ff);
        }
        let (i, j) = pairs[q];
        proof {
            assert(bv[i as int] == entry_view(best@[i as int]));
            assert(bv[j as int] == entry_view(best@[j as int]));
            assert(bv[i as int].1 is Some);
        }
        let a = best[i].1.as_ref().unwrap();
        if a.is_feed_forward() {
            proof {
                assert(bv[j as int].1 is Some && can_breed(bv[i as int].1.unwrap(), bv[j as int].1.unwrap()));
            }
            let b = best[j].1.as_ref().unwrap();
            let child = crossover(a, b, id);
            proof {
                let cv = child@;
                assert(crossover_buildable(a@, b@));
                let flags = (cv.n == a@.n, cv.l == a@.l, cv.p == a@.p, cv.d_span == a@.d_span, cv.w_span == a@.w_span);
                assert(genes_buildable(a@, b@, flags.0, flags.1, flags.2, flags.3, flags.4));
                assert(buildable(cv));
            }
            let ghost child_view = child@;
            let pop = create_network(child);
            pops.push(pop);
            proof {
                let new_done = pairs@.take(q + 1).filter(ff);
                assert(new_done == done.push(pairs@[q as int]));
                assert forall|c: int| 0 <= c < new_done.len() implies bred(
                    bv[new_done[c].0 as int].1.unwrap(),
                    bv[new_done[c].1 as int].1.unwrap(),
                    (next_id + c) as nat,
                    #[trigger] pops@[top_n + c]@,
                ) by {
                    if c < done.len() {
                        assert(new_done[c] == done[c]);
                        assert(pops@[top_n + c] == old_pops[top_n + c]);
                    } else {
                        assert(new_done[c] == pairs@[q as int]);
                        assert(pops@[top_n + c]@ == pops@.last()@);
                        assert(inherits(child_view, bv[new_done[c].0 as int].1.unwrap(), bv[new_done[c].1 as int].1.unwrap(), (next_id + c) as nat));
                        assert(network_built(child_view, pops@[top_n + c]@));
                    }
                }
                assert forall|k2: int| 0 <= k2 < top_n implies network_built(bv[start + k2].1.unwrap(), #[trigger] pops@[k2]@) by {
                    assert(pops@[k2] == old_pops[k2]);
                }
            }
            id = id + 1;
        } else {
            proof {
                assert(pairs@.take(q + 1).filter(ff) == done);
            }
        }
        q += 1;
    }
    proof {
        assert(pairs@.take(n_pairs as int) =~= pairs@);
        assert(pairs@.take(n_pairs as int).filter(ff) == fp);
        assert forall|c: int| 0 <= c < fp.len() implies bred(
            entries_view(best@)[breeding_pairs(entries_view(best@))[c].0 as int].1.unwrap(),
            entries_view(best@)[breeding_pairs(entries_view(best@))[c].1 as int].1.unwrap(),
            (next_id + c) as nat,
            #[trigger] pops@[top_n + c]@,
        ) by {
            assert(pops@[top_n + c] == pops@[top_n + c]);
        }
    }
    (pops, id)
}

/// Where an entry scored `key` goes in a list sorted by score: after every
/// entry scored at most `key`, before the first scored higher.
pub open spec fn insert_pos<T>(sorted: Seq<(u64, T)>, key: u64) -> nat
    decreases sorted.len(),
{
    if sorted.len() == 0 {
        0
    } else if sorted[0].0 > key {
        0
    } else {
        1 + insert_pos(sorted.drop_first(), key)
    }
}

/// `x` inserted in `sorted` after the entries with a score at most its own.
pub open spec fn insert_by_score<T>(sorted: Seq<(u64, T)>, x: (u64, T)) -> Seq<(u64, T)> {
    sorted.insert(insert_pos(sorted, x.0) as int, x)
}

/// The entries sorted by increasing score; entries of equal score keep
/// their order.
pub open spec fn sort_by_score<T>(s: Seq<(u64, T)>) -> Seq<(u64, T)>
    decreases s.len(),
{
    if s.len() == 0 {
        s
    } else {
        insert_by_score(sort_by_score(s.drop_last()), s.last())
    }
}

/// An entry scored `score` joins the best: there is room, or it beats one
/// of them.
pub open spec fn admits<T>(best: Seq<(u64, T)>, score: u64, best_n: nat) -> bool {
    best.len() < best_n || exists|i: int| 0 <= i < best.len() && #[trigger] best[i].0 < score
}

/// The best after considering entry `x`: an admitted entry is added, and
/// when the best then exceed `best_n`, they are sorted by score and the
/// lowest is dropped.
pub open spec fn select_step<T>(best: Seq<(u64, T)>, x: (u64, T), best_n: nat) -> Seq<(u64, T)> {
    if admits(best, x.0, best_n) {
        let grown = best.push(x);
        if grown.len() > best_n {
            sort_by_score(grown).drop_first()
        } else {
            grown
        }
    } else {
        best
    }
}

/// The best after considering the entries of `s` in order.
pub open spec fn select_fold<T>(s: Seq<(u64, T)>, best_n: nat) -> Seq<(u64, T)>
    decreases s.len(),
{
    if s.len() == 0 {
        Seq::empty()
    } else {
        select_step(select_fold(s.drop_last(), best_n), s.last(), best_n)
    }
}

/// The best `best_n` entries of `s`, sorted by increasing score.
pub open spec fn selected<T>(s: Seq<(u64, T)>, best_n: nat) -> Seq<(u64, T)> {
    sort_by_score(select_fold(s, best_n))
}

/// The insertion position lies within the list.
proof fn lemma_insert_pos_bound<T>(sorted: Seq<(u64, T)>, key: u64)
    ensures
        insert_pos(sorted, key) <= sorted.len(),
    decreases sorted.len(),
{
    if sorted.len() > 0 && sorted[0].0 <= key {
        lemma_insert_pos_bound(sorted.drop_first(), key);
    }
}

/// A scan that stopped at `i`, past the entries scored at most `key` and
/// before one scored higher or the end, found the insertion position.
proof fn lemma_insert_pos<T>(sorted: Seq<(u64, T)>, key: u64, i: int)
    requires
        0 <= i <= sorted.len(),
        forall|j: int| 0 <= j < i ==> #[trigger] sorted[j].0 <= key,
        i == sorted.len() || sorted[i].0 > key,
    ensures
        insert_pos(sorted, key) == i,
    decreases sorted.len(),
{
    if sorted.len() > 0 && i > 0 {
        assert forall|j: int| 0 <= j < i - 1 implies #[trigger] sorted.drop_first()[j].0 <= key by {
            assert(sorted.drop_first()[j] == sorted[j + 1]);
        }
        if i < sorted.len() {
            assert(sorted.drop_first()[i - 1] == sorted[i]);
        }
        lemma_insert_pos(sorted.drop_first(), key, i - 1);
    }
}

/// Sorting keeps the number of entries.
proof fn lemma_sort_len<T>(s: Seq<(u64, T)>)
    ensures
        sort_by_score(s).len() == s.len(),
    decreases s.len(),
{
    if s.len() > 0 {
        lemma_sort_len(s.drop_last());
        lemma_insert_pos_bound(sort_by_score(s.drop_last()), s.last().0);
    }
}

/// Inserts `x` into `sorted` after the entries scored at most its own.
fn insert_entry<T>(sorted: &mut Vec<(u64, T)>, x: (u64, T))
    ensures
        final(sorted)@ == insert_by_score(old(sorted)@, x),
{
    let n = sorted.len();
    let mut i: usize = 0;
    while i < n && sorted[i].0 <= x.0
        invariant
            n == sorted@.len(),
            i <= n,
            *sorted == *old(sorted),
            forall|j: int| 0 <= j < i ==> #[trigger] sorted@[j].0 <= x.0,
        decreases n - i,
    {
        i += 1;
    }
    proof {
        lemma_insert_pos(sorted@, x.0, i as int);
    }
    sorted.insert(i, x);
}

/// The entries sorted by increasing score; entries of equal score keep
/// their order.
pub fn sort_entries<T>(entries: Vec<(u64, T)>) -> (r: Vec<(u64, T)>)
    ensures
        r@ == sort_by_score(entries@),
{
    let ghost all = entries@;
    let mut rest = entries;
    let mut sorted: Vec<(u64, T)> = Vec::new();
    let n = rest.len();
    let mut k: usize = 0;
    while k < n
        invariant
            n == all.len(),
            k <= n,
            rest@ == all.skip(k as int),
            sorted@ == sort_by_score(all.take(k as int)),
        decreases n - k,
    {
        let x = rest.remove(0);
        proof {
            assert(x == all[k as int]);
            assert(all.take(k + 1).drop_last() =~= all.take(k as int));
            assert(all.take(k + 1).last() == all[k as int]);
            assert(rest@ =~= all.skip(k + 1));
        }
        insert_entry(&mut sorted, x);
        k += 1;
    }
    proof {
        assert(all.take(n as int) =~= all);
    }
    sorted
}

/// Whether some entry of `best` scores below `score`.
fn any_below<T>(best: &Vec<(u64, T)>, score: u64) -> (r: bool)
    ensures
        r == exists|i: int| 0 <= i < best@.len() && #[trigger] best@[i].0 < score,
{
    let n = best.len();
    let mut i: usize = 0;
    while i < n
        invariant
            n == best@.len(),
            i <= n,
            forall|j: int| 0 <= j < i ==> #[trigger] best@[j].0 >= score,
        decreases n - i,
    {
        if best[i].0 < score {
            return true;
        }
        i += 1;
    }
    false
}

/// Keeps the best `best_n` of the scored individuals, considered in order:
/// one joins while there is room or when it scores above one of those
/// kept, and when they are then too many, the lowest scored (the first of
/// them, among equals) is dropped. Returns them sorted by increasing score.
pub fn select_best<T>(results: Vec<(u64, T)>, best_n: usize) -> (r: Vec<(u64, T)>)
    ensures
        r@ == selected(results@, best_n as nat),
{
    let ghost all = results@;
    let mut rest = results;
    let mut best: Vec<(u64, T)> = Vec::new();
    let n = rest.len();
    let mut k: usize = 0;
    while k < n
        invariant
            n == all.len(),
            k <= n,
            rest@ == all.skip(k as int),
            best@ == select_fold(all.take(k as int), best_n as nat),
        decreases n - k,
    {
        let x = rest.remove(0);
        proof {
            assert(x == all[k as int]);
            assert(all.take(k + 1).drop_last() =~= all.take(k as int));
            assert(all.take(k + 1).last() == all[k as int]);
            assert(rest@ =~= all.skip(k + 1));
        }
        if best.len() < best_n || any_below(&best, x.0) {
            best.push(x);
            if best.len() > best_n {
                let ghost grown = best@;
                best = sort_entries(best);
                proof {
                    lemma_sort_len(grown);
                }
                best.remove(0);
                proof {
                    assert(best@ =~= sort_by_score(grown).drop_first());
                }
            }
        }
        k += 1;
    }
    proof {
        assert(all.take(n as int) =~= all);
    }
    sort_entries(best)
}

/// The entries are in increasing order of score.
pub open spec fn sorted_by_score<T>(s: Seq<(u64, T)>) -> bool {
    forall|i: int, j: int| 0 <= i <= j < s.len() ==> (#[trigger] s[i]).0 <= (#[trigger] s[j]).0
}

/// The entries before the insertion position score at most the key; the
/// one at it, if any, scores above.
proof fn lemma_insert_pos_props<T>(sorted: Seq<(u64, T)>, key: u64)
    ensures
        insert_pos(sorted, key) <= sorted.len(),
        forall|j: int| 0 <= j < insert_pos(sorted, key) ==> (#[trigger] sorted[j]).0 <= key,
        insert_pos(sorted, key) < sorted.len() ==> sorted[insert_pos(sorted, key) as int].0 > key,
    decreases sorted.len(),
{
    if sorted.len() > 0 && sorted[0].0 <= key {
        let rest = sorted.drop_first();
        lemma_insert_pos_props(rest, key);
        assert forall|j: int| 0 <= j < insert_pos(sorted, key) implies (#[trigger] sorted[j]).0 <= key by {
            if j > 0 {
                assert(sorted[j] == rest[j - 1]);
            }
        }
        if insert_pos(sorted, key) < sorted.len() {
            assert(sorted[insert_pos(sorted, key) as int] == rest[insert_pos(rest, key) as int]);
        }
    }
}

/// Sorting orders the entries by score and keeps each of them, as often as
/// it occurs.
pub proof fn law_sort_by_score<T>(s: Seq<(u64, T)>)
    ensures
        sorted_by_score(sort_by_score(s)),
        sort_by_score(s).to_multiset() == s.to_multiset(),
        sort_by_score(s).len() == s.len(),
    decreases s.len(),
{
    broadcast use vstd::seq_lib::to_multiset_build, vstd::seq_lib::to_multiset_insert;

    lemma_sort_len(s);
    if s.len() > 0 {
        let prev = sort_by_score(s.drop_last());
        law_sort_by_score(s.drop_last());
        let x = s.last();
        lemma_insert_pos_props(prev, x.0);
        let p = insert_pos(prev, x.0) as int;
        let r = prev.insert(p, x);
        assert(sort_by_score(s) == r);
        assert forall|i: int, j: int| 0 <= i <= j < r.len() implies (#[trigger] r[i]).0 <= (#[trigger] r[j]).0 by {
            if i < p {
                assert(r[i] == prev[i]);
            } else if i > p {
                assert(r[i] == prev[i - 1]);
            }
            if j < p {
                assert(r[j] == prev[j]);
            } else if j > p {
                assert(r[j] == prev[j - 1]);
            }
            if i < p && j > p {
                assert(prev[i].0 <= x.0);
                assert(prev[p].0 > x.0);
                assert(prev[p].0 <= prev[j - 1].0);
            }
            if i == p && j > p {
                assert(prev[p].0 > x.0);
                assert(prev[p].0 <= prev[j - 1].0);
            }
        }
        assert(s == s.drop_last().push(x));
    }
}

/// The smaller of two numbers.
pub open spec fn min_nat(a: nat, b: nat) -> nat {
    if a < b {
        a
    } else {
        b
    }
}

/// What holds of the best after considering `s`: as many as there is room
/// for, each taken from `s`, every entry not kept scoring at most each
/// entry kept, and, while there is room, all of `s`.
spec fn fold_props<T>(s: Seq<(u64, T)>, kept: Seq<(u64, T)>, best_n: nat) -> bool {
    &&& kept.len() == min_nat(best_n, s.len())
    &&& forall|y: (u64, T)| kept.to_multiset().count(y) <= #[trigger] s.to_multiset().count(y)
    &&& forall|y: (u64, T), i: int|
        #![trigger s.to_multiset().count(y), kept[i]]
        s.to_multiset().count(y) > kept.to_multiset().count(y) && 0 <= i < kept.len() ==> y.0 <= kept[i].0
    &&& kept.len() < best_n ==> kept.to_multiset() == s.to_multiset()
}

/// An entry of a sequence occurs in its multiset.
proof fn lemma_entry_counted<T>(s: Seq<(u64, T)>, i: int)
    requires
        0 <= i < s.len(),
    ensures
        s.to_multiset().count(s[i]) > 0,
{
    broadcast use vstd::seq_lib::to_multiset_contains;

    assert(s.contains(s[i]));
}

proof fn lemma_select_fold<T>(s: Seq<(u64, T)>, best_n: nat)
    ensures
        fold_props(s, select_fold(s, best_n), best_n),
    decreases s.len(),
{
    broadcast use vstd::seq_lib::to_multiset_build, vstd::seq_lib::to_multiset_remove, vstd::seq_lib::to_multiset_contains, vstd::multiset::group_multiset_axioms;

    if s.len() == 0 {
        assert(select_fold(s, best_n) =~= Seq::<(u64, T)>::empty());
        assert(s.to_multiset() =~= vstd::multiset::Multiset::<(u64, T)>::empty());
        assert(Seq::<(u64, T)>::empty().to_multiset() =~= vstd::multiset::Multiset::<(u64, T)>::empty());
    } else {
        let s0 = s.drop_last();
        let x = s.last();
        assert(s == s0.push(x));
        lemma_select_fold(s0, best_n);
        let k0 = select_fold(s0, best_n);
        let kept = select_fold(s, best_n);
        assert(s.to_multiset() == s0.to_multiset().insert(x));
        if !admits(k0, x.0, best_n) {
            assert(kept == k0);
            assert forall|y: (u64, T), i: int|
                #![trigger s.to_multiset().count(y), kept[i]]
                s.to_multiset().count(y) > kept.to_multiset().count(y) && 0 <= i < kept.len() implies y.0 <= kept[i].0 by {
                if y != x {
                    assert(s.to_multiset().count(y) == s0.to_multiset().count(y));
                    assert(s0.to_multiset().count(y) > k0.to_multiset().count(y));
                } else {
                    assert(!(k0[i].0 < x.0));
                }
            }
            assert(kept.len() == best_n);
        } else {
            let grown = k0.push(x);
            assert(grown.to_multiset() == k0.to_multiset().insert(x));
            if grown.len() <= best_n {
                assert(kept == grown);
                assert(k0.len() < best_n);
                assert(k0.to_multiset() == s0.to_multiset());
                assert(kept.to_multiset() =~= s.to_multiset());
            } else {
                let sorted = sort_by_score(grown);
                law_sort_by_score(grown);
                assert(kept == sorted.drop_first());
                assert(sorted.drop_first() == sorted.remove(0));
                let m = sorted[0];
                assert(kept.to_multiset() == grown.to_multiset().remove(m));
                assert(k0.len() == best_n);
                // every kept entry comes from the grown best, and scores at least m
                assert forall|i: int| 0 <= i < kept.len() implies m.0 <= (#[trigger] kept[i]).0 by {
                    assert(kept[i] == sorted[i + 1]);
                }
                assert forall|i: int| 0 <= i < kept.len() implies (#[trigger] kept[i] == x || k0.contains(kept[i])) by {
                    lemma_entry_counted(kept, i);
                    assert(grown.to_multiset().count(kept[i]) > 0);
                    assert(grown.contains(kept[i]));
                    let j = choose|j: int| 0 <= j < grown.len() && grown[j] == kept[i];
                    if j < k0.len() {
                        assert(k0[j] == kept[i]);
                    }
                }
                let w = choose|w: int| 0 <= w < k0.len() && #[trigger] k0[w].0 < x.0;
                assert forall|y: (u64, T), i: int|
                    #![trigger s.to_multiset().count(y), kept[i]]
                    s.to_multiset().count(y) > kept.to_multiset().count(y) && 0 <= i < kept.len() implies y.0 <= kept[i].0 by {
                    if y == m {
                        assert(m.0 <= kept[i].0);
                    } else {
                        assert(kept.to_multiset().count(y) == grown.to_multiset().count(y));
                        if y == x {
                            assert(grown.to_multiset().count(y) == k0.to_multiset().count(y) + 1);
                            assert(s.to_multiset().count(y) == s0.to_multiset().count(y) + 1);
                        } else {
                            assert(grown.to_multiset().count(y) == k0.to_multiset().count(y));
                            assert(s.to_multiset().count(y) == s0.to_multiset().count(y));
                        }
                        assert(s0.to_multiset().count(y) > k0.to_multiset().count(y));
                        if kept[i] == x {
                            assert(y.0 <= k0[w].0);
                        } else {
                            let j = choose|j: int| 0 <= j < k0.len() && k0[j] == kept[i];
                            assert(y.0 <= k0[j].0);
                        }
                    }
                }
                assert forall|y: (u64, T)| kept.to_multiset().count(y) <= #[trigger] s.to_multiset().count(y) by {
                    assert(k0.to_multiset().count(y) <= s0.to_multiset().count(y));
                }
            }
        }
    }
}

/// The selection of the best keeps as many entries as there is room for,
/// in increasing order of score, each taken from the input, and drops
/// none that scores above an entry kept: the best are the highest scored.
pub proof fn law_selection<T>(s: Seq<(u64, T)>, best_n: nat)
    ensures
        sorted_by_score(selected(s, best_n)),
        selected(s, best_n).len() == min_nat(best_n, s.len()),
        forall|y: (u64, T)| selected(s, best_n).to_multiset().count(y) <= #[trigger] s.to_multiset().count(y),
        forall|y: (u64, T), i: int|
            #![trigger s.to_multiset().count(y), selected(s, best_n)[i]]
            s.to_multiset().count(y) > selected(s, best_n).to_multiset().count(y) && 0 <= i < selected(s, best_n).len()
                ==> y.0 <= selected(s, best_n)[i].0,
{
    broadcast use vstd::seq_lib::to_multiset_contains;

    let kept = select_fold(s, best_n);
    lemma_select_fold(s, best_n);
    law_sort_by_score(kept);
    let r = selected(s, best_n);
    assert forall|y: (u64, T), i: int|
        #![trigger s.to_multiset().count(y), r[i]]
        s.to_multiset().count(y) > r.to_multiset().count(y) && 0 <= i < r.len() implies y.0 <= r[i].0 by {
        lemma_entry_counted(r, i);
        assert(kept.contains(r[i]));
        let j = choose|j: int| 0 <= j < kept.len() && kept[j] == r[i];
        assert(s.to_multiset().count(y) > kept.to_multiset().count(y));
        assert(y.0 <= kept[j].0);
    }
}

/// There are `(n - start) (n - start - 1) / 2` pairs from `start`.
proof fn lemma_pairs_from_len(start: int, n: int)
    requires
        0 <= start <= n,
    ensures
        pairs_from(start, n).len() * 2 == (n - start) * (n - start - 1),
    decreases n - start,
{
    if start < n {
        lemma_pairs_from_len(start + 1, n);
        let d = n - start;
        let m = pairs_from(start + 1, n).len() as int;
        assert(m * 2 == (d - 1) * (d - 2));
        assert(pairs_from(start, n).len() == (d - 1) + m);
        assert((d - 1) * 2 + (d - 1) * (d - 2) == d * (d - 1)) by (nonlinear_arith);
        assert(pairs_from(start, n).len() * 2 == (d - 1) * 2 + m * 2);
        assert(d * (d - 1) == (n - start) * (n - start - 1));
    } else {
        assert((n - start) * (n - start - 1) == 0) by (nonlinear_arith)
            requires n == start;
    }
}

/// Among `n` individuals there are `n (n - 1) / 2` pairs.
pub proof fn law_index_pairs_count(n: nat)
    ensures
        index_pairs(n).len() * 2 == n * (n - 1),
{
    lemma_pairs_from_len(0, n as int);
}

/// When every individual is a feed-forward network, every pair breeds: the
/// next generation then holds `top_n + n (n - 1) / 2` networks for `n`
/// individuals.
pub proof fn law_all_pairs_breed(best: Seq<(u64, Option<ParametersView>)>)
    requires
        best.len() <= usize::MAX,
        forall|k: int|
            0 <= k < best.len() ==> (#[trigger] best[k]).1 is Some && best[k].1.unwrap().topology
                == crate::parameters::feed_forward_name(),
    ensures
        breeding_pairs(best) == index_pairs(best.len()),
        breeding_pairs(best).len() * 2 == best.len() * (best.len() - 1),
{
    let pairs = index_pairs(best.len());
    let ff = |pr: (usize, usize)| best[pr.0 as int].1.unwrap().topology == crate::parameters::feed_forward_name();
    lemma_pairs_from_in_range(0, best.len() as int);
    assert(pairs == pairs_from(0, best.len() as int));
    lemma_filter_all(pairs, ff);
    law_index_pairs_count(best.len());
}

/// Filtering keeps a sequence whose every entry passes.
proof fn lemma_filter_all<A>(s: Seq<A>, pred: spec_fn(A) -> bool)
    requires
        forall|i: int| 0 <= i < s.len() ==> pred(#[trigger] s[i]),
    ensures
        s.filter(pred) == s,
    decreases s.len(),
{
    reveal(Seq::filter);
    if s.len() > 0 {
        lemma_filter_all(s.drop_last(), pred);
        assert(pred(s[s.len() - 1]));
        assert(s.drop_last().push(s.last()) =~= s);
    }
}

} // verus!
