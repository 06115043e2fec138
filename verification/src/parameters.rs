//! The parameters that describe a network of the evolution.
//!
//! Probabilities and learning rates are counted in thousandths, weights in
//! tenths and delays in ticks of 0.1 ms.
use vstd::prelude::*;

verus! {

/// What a parameter set holds, as mathematical values.
#[verifier::ext_equal]
pub struct ParametersView {
    pub name: Seq<char>,
    pub topology: Seq<char>,
    pub n: i32,
    pub p: Option<u32>,
    pub l: Option<i32>,
    pub k: Option<u32>,
    pub m: Option<i32>,
    pub declining_learning_rate: u32,
    pub w_learning_p: u32,
    pub w_span: (i32, i32),
    pub partial_d: bool,
    pub d_learning_p: u32,
    pub d_span: (u32, u32),
    pub seed: Option<u64>,
}

/// The topology name of a feed-forward network.
pub open spec fn feed_forward_name() -> Seq<char> {
    seq!['f', 'f']
}

/// The parameters of a feed-forward network of `n` neurons in `l` layers,
/// connected with probability `p`.
pub open spec fn feed_forward_view(
    name: Seq<char>,
    n: i32,
    p: u32,
    l: i32,
    declining_learning_rate: u32,
    w_learning_p: u32,
    w_span: (i32, i32),
    partial_d: bool,
    d_learning_p: u32,
    d_span: (u32, u32),
    seed: u64,
) -> ParametersView {
    ParametersView {
        name,
        topology: feed_forward_name(),
        n,
        p: Some(p),
        l: Some(l),
        k: None,
        m: None,
        declining_learning_rate,
        w_learning_p,
        w_span,
        partial_d,
        d_learning_p,
        d_span,
        seed: Some(seed),
    }
}

/// A network's parameters; which of `p`, `l`, `k` and `m` are set depends
/// on the topology.
pub struct Parameters {
    pub name: String,
    /// "ff", "sf", "sw" or "res".
    pub topology: String,
    /// Number of neurons.
    pub n: i32,
    /// Connection probability, in thousandths.
    pub p: Option<u32>,
    /// Number of layers.
    pub l: Option<i32>,
    /// Scale-free degree parameter, in thousandths.
    pub k: Option<u32>,
    /// Small-world neighbourhood size.
    pub m: Option<i32>,
    /// In thousandths.
    pub declining_learning_rate: u32,
    /// In thousandths.
    pub w_learning_p: u32,
    /// Range of initial weights, in tenths.
    pub w_span: (i32, i32),
    pub partial_d: bool,
    /// In thousandths.
    pub d_learning_p: u32,
    /// Range of initial delays, in ticks.
    pub d_span: (u32, u32),
    pub seed: Option<u64>,
}

impl View for Parameters {
    type V = ParametersView;

    open spec fn view(&self) -> ParametersView {
        ParametersView {
            name: self.name@,
            topology: self.topology@,
            n: self.n,
            p: self.p,
            l: self.l,
            k: self.k,
            m: self.m,
            declining_learning_rate: self.declining_learning_rate,
            w_learning_p: self.w_learning_p,
            w_span: self.w_span,
            partial_d: self.partial_d,
            d_learning_p: self.d_learning_p,
            d_span: self.d_span,
            seed: self.seed,
        }
    }
}

#[allow(non_snake_case)]
impl Parameters {
    pub fn new_FeedForward(
        name: String,
        n: i32,
        p: u32,
        l: i32,
        declining_learning_rate: u32,
        w_learning_p: u32,
        w_span: (i32, i32),
        partial_d: bool,
        d_learning_p: u32,
        d_span: (u32, u32),
        seed: u64,
    ) -> (r: Self)
        ensures
            r@ == feed_forward_view(
                name@,
                n,
                p,
                l,
                declining_learning_rate,
                w_learning_p,
                w_span,
                partial_d,
                d_learning_p,
                d_span,
                seed,
            ),
    {
        let topology = String::from_str("ff");
        proof {
            reveal_strlit("ff");
        }
        Self {
            name,
            topology,
            n,
            p: Some(p),
            l: Some(l),
            k: None,
            m: None,
            declining_learning_rate,
            w_learning_p,
            w_span,
            partial_d,
            d_learning_p,
            d_span,
            seed: Some(seed),
        }
    }

    pub fn new_ScaleFree(
        name: String,
        n: i32,
        k: u32,
        declining_learning_rate: u32,
        w_learning_p: u32,
        w_span: (i32, i32),
        partial_d: bool,
        d_learning_p: u32,
        d_span: (u32, u32),
        seed: u64,
    ) -> (r: Self)
        ensures
            r@ == (ParametersView {
                name: name@,
                topology: seq!['s', 'f'],
                n,
                p: None,
                l: None,
                k: Some(k),
                m: None,
                declining_learning_rate,
                w_learning_p,
                w_span,
                partial_d,
                d_learning_p,
                d_span,
                seed: Some(seed),
            }),
    {
        let topology = String::from_str("sf");
        proof {
            reveal_strlit("sf");
        }
        Self {
            name,
            topology,
            n,
            p: None,
            l: None,
            k: Some(k),
            m: None,
            declining_learning_rate,
            w_learning_p,
            w_span,
            partial_d,
            d_learning_p,
            d_span,
            seed: Some(seed),
        }
    }

    pub fn new_SmallWorld(
        name: String,
        n: i32,
        p: u32,
        m: i32,
        declining_learning_rate: u32,
        w_learning_p: u32,
        w_span: (i32, i32),
        partial_d: bool,
        d_learning_p: u32,
        d_span: (u32, u32),
        seed: u64,
    ) -> (r: Self)
        ensures
            r@ == (ParametersView {
                name: name@,
                topology: seq!['s', 'w'],
                n,
                p: Some(p),
                l: None,
                k: None,
                m: Some(m),
                declining_learning_rate,
                w_learning_p,
                w_span,
                partial_d,
                d_learning_p,
                d_span,
                seed: Some(seed),
            }),
    {
        let topology = String::from_str("sw");
        proof {
            reveal_strlit("sw");
        }
        Self {
            name,
            topology,
            n,
            p: Some(p),
            l: None,
            k: None,
            m: Some(m),
            declining_learning_rate,
            w_learning_p,
            w_span,
            partial_d,
            d_learning_p,
            d_span,
            seed: Some(seed),
        }
    }

    pub fn new_Reservoir(
        name: String,
        n: i32,
        p: u32,
        declining_learning_rate: u32,
        w_learning_p: u32,
        w_span: (i32, i32),
        partial_d: bool,
        d_learning_p: u32,
        d_span: (u32, u32),
        seed: u64,
    ) -> (r: Self)
        ensures
            r@ == (ParametersView {
                name: name@,
                topology: seq!['r', 'e', 's'],
                n,
                p: Some(p),
                l: None,
                k: None,
                m: None,
                declining_learning_rate,
                w_learning_p,
                w_span,
                partial_d,
                d_learning_p,
                d_span,
                seed: Some(seed),
            }),
    {
        let topology = String::from_str("res");
        proof {
            reveal_strlit("res");
        }
        Self {
            name,
            topology,
            n,
            p: Some(p),
            l: None,
            k: None,
            m: None,
            declining_learning_rate,
            w_learning_p,
            w_span,
            partial_d,
            d_learning_p,
            d_span,
            seed: Some(seed),
        }
    }

    /// A copy of the parameter set.
    pub fn duplicate(&self) -> (r: Self)
        ensures
            r@ == self@,
    {
        Parameters {
            name: self.name.clone(),
            topology: self.topology.clone(),
            n: self.n,
            p: self.p,
            l: self.l,
            k: self.k,
            m: self.m,
            declining_learning_rate: self.declining_learning_rate,
            w_learning_p: self.w_learning_p,
            w_span: self.w_span,
            partial_d: self.partial_d,
            d_learning_p: self.d_learning_p,
            d_span: self.d_span,
            seed: self.seed,
        }
    }

    /// Whether the parameters describe a feed-forward network.
    pub fn is_feed_forward(&self) -> (r: bool)
        ensures
            r == (self.topology@ == feed_forward_name()),
    {
        let ff = String::from_str("ff");
        proof {
            reveal_strlit("ff");
            assert(ff@ =~= feed_forward_name());
        }
        self.topology == ff
    }
}

} // verus!
