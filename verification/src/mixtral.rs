//! Mixtral 8x7B as a dependent lens: its shape and its parameter buffer.
//!
//! Mixtral (Apache-2.0, Mistral AI, arXiv:2401.04088) is a decoder-only
//! transformer with Mistral's attention stack and a sparse feed-forward block:
//! RMSNorm, grouped-query attention, rotary positions, a sliding causal window,
//! then eight SwiGLU experts of which the router keeps two.
//!
//! [`MixtralConfig::mixtral_8x7b`] is the published shape (about 46.7 billion
//! parameters). [`MixtralConfig::demo`] is the same block at a width that fits
//! on one GPU. [`layout`] places every matrix in one buffer.
use vstd::prelude::*;
use vstd::string::StringExecFns;
use crate::cluster::{Cluster, DeviceKind, Hop, Pass, StageError, StagePlan, Window};
use crate::text;
use crate::theory::plans::{Dev, Fault, Leg, Plan, Win};

verus! {

/// Hyperparameters of one Mixtral model. `sliding_window` is the number of
/// keys a query may attend to, including itself.
#[derive(Clone, Copy, Debug, PartialEq, Eq, Structural)]
pub struct MixtralConfig {
    pub vocab: usize,
    pub dim: usize,
    pub layers: usize,
    pub heads: usize,
    pub kv_heads: usize,
    pub head_dim: usize,
    pub intermediate: usize,
    pub experts: usize,
    pub top_k: usize,
    pub sliding_window: usize,
}

/// Where each matrix of a layer begins.
#[verifier::ext_equal]
pub struct LayerPlaces {
    pub attn_norm: int,
    pub q: int,
    pub k: int,
    pub v: int,
    pub o: int,
    pub ffn_norm: int,
    pub router: int,
    pub gate: Seq<int>,
    pub up: Seq<int>,
    pub down: Seq<int>,
}

/// Where each matrix of the model begins, and how many parameters there are.
#[verifier::ext_equal]
pub struct Places {
    pub embed: int,
    pub layers: Seq<LayerPlaces>,
    pub final_norm: int,
    pub lm_head: int,
    pub total: int,
}

impl MixtralConfig {
    pub open spec fn q_width(self) -> int {
        self.heads * self.head_dim
    }

    pub open spec fn kv_width(self) -> int {
        self.kv_heads * self.head_dim
    }

    pub open spec fn table_len(self) -> int {
        self.vocab * self.dim
    }

    pub open spec fn q_len(self) -> int {
        self.dim * self.q_width()
    }

    pub open spec fn kv_len(self) -> int {
        self.dim * self.kv_width()
    }

    pub open spec fn o_len(self) -> int {
        self.q_width() * self.dim
    }

    pub open spec fn router_len(self) -> int {
        self.dim * self.experts
    }

    pub open spec fn up_len(self) -> int {
        self.dim * self.intermediate
    }

    pub open spec fn down_len(self) -> int {
        self.intermediate * self.dim
    }

    pub open spec fn head_len(self) -> int {
        self.dim * self.vocab
    }

    /// The parameters of one expert: gate, up and down.
    pub open spec fn expert_len(self) -> int {
        self.up_len() + self.up_len() + self.down_len()
    }

    /// The parameters of a layer before its experts.
    pub open spec fn front_len(self) -> int {
        self.dim + self.q_len() + self.kv_len() + self.kv_len() + self.o_len() + self.dim + self.router_len()
    }

    pub open spec fn layer_len(self) -> int {
        self.front_len() + self.experts * self.expert_len()
    }

    /// Where layer `l` begins.
    pub open spec fn layer_at(self, l: int) -> int {
        self.table_len() + l * self.layer_len()
    }

    /// Where expert `e` of layer `l` begins.
    pub open spec fn expert_at(self, l: int, e: int) -> int {
        self.layer_at(l) + self.front_len() + e * self.expert_len()
    }

    pub open spec fn total(self) -> int {
        self.layer_at(self.layers as int) + self.dim + self.head_len()
    }

    /// The offsets of layer `l`.
    pub open spec fn layer_places(self, l: int) -> LayerPlaces {
        let attn_norm = self.layer_at(l);
        let q = attn_norm + self.dim;
        let k = q + self.q_len();
        let v = k + self.kv_len();
        let o = v + self.kv_len();
        let ffn_norm = o + self.o_len();
        let router = ffn_norm + self.dim;
        LayerPlaces {
            attn_norm,
            q,
            k,
            v,
            o,
            ffn_norm,
            router,
            gate: Seq::new(self.experts as nat, |e: int| self.expert_at(l, e)),
            up: Seq::new(self.experts as nat, |e: int| self.expert_at(l, e) + self.up_len()),
            down: Seq::new(self.experts as nat, |e: int| self.expert_at(l, e) + self.up_len() + self.up_len()),
        }
    }

    pub open spec fn places(self) -> Places {
        let final_norm = self.layer_at(self.layers as int);
        Places {
            embed: 0,
            layers: Seq::new(self.layers as nat, |l: int| self.layer_places(l)),
            final_norm,
            lm_head: final_norm + self.dim,
            total: self.total(),
        }
    }

    /// The parameter buffer fits in memory.
    pub open spec fn fits(self) -> bool {
        &&& self.total() <= usize::MAX
        &&& self.layers > 0 ==> self.q_width() <= usize::MAX && self.kv_width() <= usize::MAX
    }
}

pub proof fn lemma_lens(c: MixtralConfig)
    ensures
        c.q_width() >= 0,
        c.kv_width() >= 0,
        c.table_len() >= 0,
        c.q_len() >= 0,
        c.kv_len() >= 0,
        c.o_len() >= 0,
        c.router_len() >= 0,
        c.up_len() >= 0,
        c.down_len() >= 0,
        c.head_len() >= 0,
        c.experts * c.expert_len() >= 0,
{
    assert(c.q_width() >= 0) by (nonlinear_arith)
        requires c.q_width() == c.heads * c.head_dim;
    assert(c.kv_width() >= 0) by (nonlinear_arith)
        requires c.kv_width() == c.kv_heads * c.head_dim;
    assert(c.table_len() >= 0) by (nonlinear_arith)
        requires c.table_len() == c.vocab * c.dim;
    assert(c.q_len() >= 0) by (nonlinear_arith)
        requires c.q_width() >= 0, c.q_len() == c.dim * c.q_width();
    assert(c.kv_len() >= 0) by (nonlinear_arith)
        requires c.kv_width() >= 0, c.kv_len() == c.dim * c.kv_width();
    assert(c.o_len() >= 0) by (nonlinear_arith)
        requires c.q_width() >= 0, c.o_len() == c.q_width() * c.dim;
    assert(c.router_len() >= 0) by (nonlinear_arith)
        requires c.router_len() == c.dim * c.experts;
    assert(c.up_len() >= 0) by (nonlinear_arith)
        requires c.up_len() == c.dim * c.intermediate;
    assert(c.down_len() >= 0) by (nonlinear_arith)
        requires c.down_len() == c.intermediate * c.dim;
    assert(c.head_len() >= 0) by (nonlinear_arith)
        requires c.head_len() == c.dim * c.vocab;
    let x = c.expert_len();
    assert(c.experts * x >= 0) by (nonlinear_arith)
        requires x >= 0;
}

/// Layer `l` ends where the next begins, within the buffer.
pub proof fn lemma_layer_step(c: MixtralConfig, l: int)
    requires
        0 <= l < c.layers,
    ensures
        c.table_len() <= c.layer_at(l),
        c.layer_at(l + 1) == c.layer_at(l) + c.layer_len(),
        c.layer_at(l + 1) <= c.layer_at(c.layers as int),
        c.layer_at(c.layers as int) <= c.total(),
{
    lemma_lens(c);
    let n = c.layers as int;
    let x = c.layer_len();
    assert((l + 1) * x == l * x + x && (l + 1) * x <= n * x && 0 <= l * x) by (nonlinear_arith)
        requires x >= 0, 0 <= l < n;
}

/// Expert `e` ends where the next begins, within the layer.
pub proof fn lemma_expert_step(c: MixtralConfig, l: int, e: int)
    requires
        0 <= e < c.experts,
    ensures
        c.layer_at(l) + c.front_len() <= c.expert_at(l, e),
        c.expert_at(l, e + 1) == c.expert_at(l, e) + c.expert_len(),
        c.expert_at(l, e + 1) <= c.layer_at(l) + c.layer_len(),
{
    lemma_lens(c);
    let n = c.experts as int;
    let x = c.expert_len();
    assert((e + 1) * x == e * x + x && (e + 1) * x <= n * x && 0 <= e * x) by (nonlinear_arith)
        requires x >= 0, 0 <= e < n;
}

pub proof fn lemma_ends(c: MixtralConfig)
    ensures
        c.layer_at(0) == c.table_len(),
        forall|l: int| c.expert_at(l, 0) == #[trigger] c.layer_at(l) + c.front_len(),
        forall|l: int| c.expert_at(l, c.experts as int) == #[trigger] c.layer_at(l) + c.layer_len(),
        c.table_len() <= c.layer_at(c.layers as int),
{
    lemma_lens(c);
    let n = c.layers as int;
    let x = c.layer_len();
    assert(0 * x == 0 && 0 <= n * x) by (nonlinear_arith)
        requires x >= 0, n >= 0;
    assert forall|l: int| c.expert_at(l, 0) == #[trigger] c.layer_at(l) + c.front_len() by {
        assert(0 * c.expert_len() == 0);
    }
}

/// The regions of the buffer follow each other without a gap: every matrix
/// begins where the one before it ends, from the embedding at zero to the
/// language-model head, which ends with the buffer.
pub proof fn law_layout_regions(c: MixtralConfig)
    ensures
        ({
            let p = c.places();
            let next = |l: int| if l < c.layers {
                p.layers[l].attn_norm
            } else {
                p.final_norm
            };
            &&& p.embed == 0
            &&& p.embed + c.table_len() == next(0)
            &&& forall|l: int|
                #![trigger p.layers[l]]
                0 <= l < c.layers ==> {
                    let y = p.layers[l];
                    &&& y.attn_norm + c.dim == y.q
                    &&& y.q + c.q_len() == y.k
                    &&& y.k + c.kv_len() == y.v
                    &&& y.v + c.kv_len() == y.o
                    &&& y.o + c.o_len() == y.ffn_norm
                    &&& y.ffn_norm + c.dim == y.router
                    &&& y.router + c.router_len() == if c.experts > 0 {
                        y.gate[0]
                    } else {
                        next(l + 1)
                    }
                    &&& forall|e: int|
                        #![trigger y.gate[e]]
                        0 <= e < c.experts ==> {
                            &&& y.gate[e] + c.up_len() == y.up[e]
                            &&& y.up[e] + c.up_len() == y.down[e]
                            &&& y.down[e] + c.down_len() == if e + 1 < c.experts {
                                y.gate[e + 1]
                            } else {
                                next(l + 1)
                            }
                        }
                }
            &&& p.final_norm + c.dim == p.lm_head
            &&& p.lm_head + c.head_len() == p.total
        }),
{
    let p = c.places();
    let next = |l: int| if l < c.layers {
        p.layers[l].attn_norm
    } else {
        p.final_norm
    };
    lemma_ends(c);
    assert forall|l: int| 0 <= l <= c.layers implies #[trigger] next(l) == c.layer_at(l) by {
    }
    assert(p.embed + c.table_len() == next(0));
    assert forall|l: int| #![trigger p.layers[l]] 0 <= l < c.layers implies {
        let y = p.layers[l];
        &&& y.attn_norm + c.dim == y.q
        &&& y.q + c.q_len() == y.k
        &&& y.k + c.kv_len() == y.v
        &&& y.v + c.kv_len() == y.o
        &&& y.o + c.o_len() == y.ffn_norm
        &&& y.ffn_norm + c.dim == y.router
        &&& y.router + c.router_len() == if c.experts > 0 {
            y.gate[0]
        } else {
            next(l + 1)
        }
        &&& forall|e: int|
            #![trigger y.gate[e]]
            0 <= e < c.experts ==> {
                &&& y.gate[e] + c.up_len() == y.up[e]
                &&& y.up[e] + c.up_len() == y.down[e]
                &&& y.down[e] + c.down_len() == if e + 1 < c.experts {
                    y.gate[e + 1]
                } else {
                    next(l + 1)
                }
            }
    } by {
        let y = p.layers[l];
        assert(y == c.layer_places(l));
        lemma_layer_step(c, l);
        assert(next(l + 1) == c.layer_at(l + 1));
        assert(c.expert_at(l, 0) == c.layer_at(l) + c.front_len());
        assert(c.expert_at(l, c.experts as int) == c.layer_at(l) + c.layer_len());
        assert forall|e: int| #![trigger y.gate[e]] 0 <= e < c.experts implies {
            &&& y.gate[e] + c.up_len() == y.up[e]
            &&& y.up[e] + c.up_len() == y.down[e]
            &&& y.down[e] + c.down_len() == if e + 1 < c.experts {
                y.gate[e + 1]
            } else {
                next(l + 1)
            }
        } by {
            lemma_expert_step(c, l, e);
        }
    }
}

impl MixtralConfig {
    /// Published Mixtral-8x7B-v0.1 configuration.
    pub fn mixtral_8x7b() -> (r: MixtralConfig)
        ensures
            r.vocab == 32_000,
            r.dim == 4096,
            r.layers == 32,
            r.heads == 32,
            r.kv_heads == 8,
            r.head_dim == 128,
            r.intermediate == 14_336,
            r.experts == 8,
            r.top_k == 2,
            r.sliding_window == 4096,
    {
        MixtralConfig {
            vocab: 32_000,
            dim: 4096,
            layers: 32,
            heads: 32,
            kv_heads: 8,
            head_dim: 128,
            intermediate: 14_336,
            experts: 8,
            top_k: 2,
            sliding_window: 4096,
        }
    }

    /// Same block, small enough to differentiate and launch.
    pub fn demo() -> (r: MixtralConfig)
        ensures
            r.vocab == 32,
            r.dim == 32,
            r.layers == 2,
            r.heads == 4,
            r.kv_heads == 2,
            r.head_dim == 8,
            r.intermediate == 48,
            r.experts == 4,
            r.top_k == 2,
            r.sliding_window == 4,
    {
        MixtralConfig {
            vocab: 32,
            dim: 32,
            layers: 2,
            heads: 4,
            kv_heads: 2,
            head_dim: 8,
            intermediate: 48,
            experts: 4,
            top_k: 2,
            sliding_window: 4,
        }
    }

    pub fn q_dim(&self) -> (r: usize)
        requires
            self.q_width() <= usize::MAX,
        ensures
            r == self.q_width(),
    {
        proof {
            lemma_lens(*self);
        }
        self.heads * self.head_dim
    }

    pub fn kv_dim(&self) -> (r: usize)
        requires
            self.kv_width() <= usize::MAX,
        ensures
            r == self.kv_width(),
    {
        proof {
            lemma_lens(*self);
        }
        self.kv_heads * self.head_dim
    }

    /// Query heads for each key head.
    pub fn group(&self) -> (r: usize)
        requires
            self.kv_heads > 0,
            self.heads as int % self.kv_heads as int == 0,
        ensures
            r * self.kv_heads == self.heads,
    {
        proof {
            let a = self.heads as int;
            let b = self.kv_heads as int;
            assert((a / b) * b == a) by (nonlinear_arith)
                requires b > 0, a % b == 0;
        }
        self.heads / self.kv_heads
    }
}

/// Byte-free parameter layout. Every matrix is row-major with the contraction
/// index first: `W[k * dout + n]`.
#[derive(Clone, Debug)]
pub struct Layout {
    pub embed: usize,
    pub layers: Vec<LayerLayout>,
    pub final_norm: usize,
    pub lm_head: usize,
    pub total: usize,
}

#[derive(Clone, Debug)]
pub struct LayerLayout {
    pub attn_norm: usize,
    pub q: usize,
    pub k: usize,
    pub v: usize,
    pub o: usize,
    pub ffn_norm: usize,
    pub router: usize,
    pub gate: Vec<usize>,
    pub up: Vec<usize>,
    pub down: Vec<usize>,
}

pub open spec fn offsets(s: Seq<usize>) -> Seq<int> {
    Seq::new(s.len(), |i: int| s[i] as int)
}

impl View for LayerLayout {
    type V = LayerPlaces;

    open spec fn view(&self) -> LayerPlaces {
        LayerPlaces {
            attn_norm: self.attn_norm as int,
            q: self.q as int,
            k: self.k as int,
            v: self.v as int,
            o: self.o as int,
            ffn_norm: self.ffn_norm as int,
            router: self.router as int,
            gate: offsets(self.gate@),
            up: offsets(self.up@),
            down: offsets(self.down@),
        }
    }
}

impl View for Layout {
    type V = Places;

    open spec fn view(&self) -> Places {
        Places {
            embed: self.embed as int,
            layers: crate::theory::listing::views(self.layers@),
            final_norm: self.final_norm as int,
            lm_head: self.lm_head as int,
            total: self.total as int,
        }
    }
}

fn layer_layout(cfg: &MixtralConfig, l: usize, at: usize) -> (r: LayerLayout)
    requires
        cfg.fits(),
        l < cfg.layers,
        at == cfg.layer_at(l as int),
    ensures
        r@ == cfg.layer_places(l as int),
{
    let ghost c = *cfg;
    proof {
        lemma_lens(c);
        lemma_layer_step(c, l as int);
        lemma_ends(c);
    }
    let q_dim: usize = cfg.q_dim();
    let kv_dim: usize = cfg.kv_dim();
    let q: usize = at + cfg.dim;
    let k: usize = q + cfg.dim * q_dim;
    let v: usize = k + cfg.dim * kv_dim;
    let o: usize = v + cfg.dim * kv_dim;
    let ffn_norm: usize = o + q_dim * cfg.dim;
    let router: usize = ffn_norm + cfg.dim;
    let mut next: usize = router + cfg.dim * cfg.experts;
    let mut gate: Vec<usize> = Vec::new();
    let mut up: Vec<usize> = Vec::new();
    let mut down: Vec<usize> = Vec::new();
    let mut e: usize = 0;
    assert(next == c.expert_at(l as int, 0)) by {
        assert(c.expert_at(l as int, 0) == c.layer_at(l as int) + c.front_len());
    }
    while e < cfg.experts
        invariant
            e <= cfg.experts,
            c == *cfg,
            cfg.fits(),
            l < cfg.layers,
            next == c.expert_at(l as int, e as int),
            gate@.len() == e,
            up@.len() == e,
            down@.len() == e,
            forall|i: int| 0 <= i < e ==> #[trigger] gate@[i] == c.expert_at(l as int, i),
            forall|i: int| 0 <= i < e ==> #[trigger] up@[i] == c.expert_at(l as int, i) + c.up_len(),
            forall|i: int| 0 <= i < e ==> #[trigger] down@[i] == c.expert_at(l as int, i) + c.up_len() + c.up_len(),
        decreases cfg.experts - e,
    {
        proof {
            lemma_lens(c);
            lemma_expert_step(c, l as int, e as int);
            lemma_layer_step(c, l as int);
        }
        gate.push(next);
        next = next + cfg.dim * cfg.intermediate;
        up.push(next);
        next = next + cfg.dim * cfg.intermediate;
        down.push(next);
        next = next + cfg.intermediate * cfg.dim;
        e = e + 1;
    }
    let r = LayerLayout { attn_norm: at, q, k, v, o, ffn_norm, router, gate, up, down };
    assert(r@ =~= c.layer_places(l as int));
    r
}

/// The offset of every matrix in one parameter buffer.
pub fn layout(cfg: &MixtralConfig) -> (r: Layout)
    requires
        cfg.fits(),
    ensures
        r@ == cfg.places(),
{
    let ghost c = *cfg;
    proof {
        lemma_lens(c);
        lemma_ends(c);
    }
    let table: usize = cfg.vocab * cfg.dim;
    let mut layers: Vec<LayerLayout> = Vec::new();
    let mut at: usize = table;
    let mut l: usize = 0;
    while l < cfg.layers
        invariant
            l <= cfg.layers,
            c == *cfg,
            cfg.fits(),
            at == c.layer_at(l as int),
            layers@.len() == l,
            forall|i: int| 0 <= i < l ==> #[trigger] layers@[i]@ == c.layer_places(i),
        decreases cfg.layers - l,
    {
        proof {
            lemma_lens(c);
            lemma_layer_step(c, l as int);
            lemma_ends(c);
        }
        layers.push(layer_layout(cfg, l, at));
        proof {
            assert(c.layer_at(l as int) + c.front_len() <= c.total());
            let x = c.expert_len();
            let n = c.experts as int;
            assert(n > 0 ==> x <= n * x) by (nonlinear_arith)
                requires x >= 0;
        }
        at = at + layer_size(cfg);
        l = l + 1;
    }
    let final_norm: usize = at;
    let lm_head: usize = final_norm + cfg.dim;
    let total: usize = lm_head + cfg.dim * cfg.vocab;
    let r = Layout { embed: 0, layers, final_norm, lm_head, total };
    assert(r@.layers =~= c.places().layers);
    r
}

/// The number of parameters of one layer.
fn layer_size(cfg: &MixtralConfig) -> (r: usize)
    requires
        cfg.q_width() <= usize::MAX,
        cfg.kv_width() <= usize::MAX,
        cfg.layer_len() <= usize::MAX,
    ensures
        r == cfg.layer_len(),
{
    let ghost c = *cfg;
    proof {
        lemma_lens(c);
        let x = c.expert_len();
        let n = c.experts as int;
        assert(n > 0 ==> x <= n * x) by (nonlinear_arith)
            requires x >= 0;
    }
    let q_dim: usize = cfg.q_dim();
    let kv_dim: usize = cfg.kv_dim();
    let front: usize = cfg.dim + cfg.dim * q_dim + cfg.dim * kv_dim + cfg.dim * kv_dim + q_dim * cfg.dim + cfg.dim + cfg.dim
        * cfg.experts;
    if cfg.experts == 0 {
        assert(c.experts * c.expert_len() == 0) by (nonlinear_arith)
            requires c.experts == 0;
        return front;
    }
    let expert: usize = cfg.dim * cfg.intermediate + cfg.dim * cfg.intermediate + cfg.intermediate * cfg.dim;
    front + cfg.experts * expert
}

/// The number of parameters.
pub fn parameter_count(cfg: &MixtralConfig) -> (r: u64)
    requires
        cfg.fits(),
    ensures
        r == cfg.total(),
{
    layout(cfg).total as u64
}

/// Whether a query attends to a key: the key is not later, and the window
/// reaches back to it.
pub open spec fn attends(c: MixtralConfig, query: int, key: int) -> bool {
    query - c.sliding_window < key <= query
}

pub fn visible(cfg: &MixtralConfig, query: usize, key: usize) -> (r: bool)
    ensures
        r == attends(*cfg, query as int, key as int),
{
    key <= query && query - key < cfg.sliding_window
}

/// Token `i` of the demo batch.
pub open spec fn demo_token(c: MixtralConfig, i: int) -> int {
    (i * 5 + 1) % (c.vocab as int)
}

/// The demo batch: two sequences of eight tokens, and their targets.
pub fn demo_batch(cfg: &MixtralConfig) -> (r: (usize, usize, Vec<usize>, Vec<usize>))
    requires
        0 < cfg.vocab <= usize::MAX - 3,
    ensures
        r.0 == 2,
        r.1 == 8,
        r.2@.len() == 16,
        r.3@.len() == 16,
        forall|i: int| 0 <= i < 16 ==> #[trigger] r.2@[i] == demo_token(*cfg, i),
        forall|i: int| 0 <= i < 16 ==> #[trigger] r.3@[i] == (demo_token(*cfg, i) + 3) % (cfg.vocab as int),
{
    let mut tokens: Vec<usize> = Vec::new();
    let mut targets: Vec<usize> = Vec::new();
    let mut i: usize = 0;
    while i < 16
        invariant
            i <= 16,
            0 < cfg.vocab <= usize::MAX - 3,
            tokens@.len() == i,
            targets@.len() == i,
            forall|j: int| 0 <= j < i ==> #[trigger] tokens@[j] == demo_token(*cfg, j),
            forall|j: int| 0 <= j < i ==> #[trigger] targets@[j] == (demo_token(*cfg, j) + 3) % (cfg.vocab as int),
        decreases 16 - i,
    {
        let t: usize = (i * 5 + 1) % cfg.vocab;
        tokens.push(t);
        targets.push((t + 3) % cfg.vocab);
        i = i + 1;
    }
    (2, 8, tokens, targets)
}

/// The probe offsets of a layout with at least two layers and four experts.
pub open spec fn probes_of(c: MixtralConfig) -> Seq<int> {
    let p = c.places();
    let a = p.layers[0];
    let b = p.layers[1];
    let last = c.experts - 1;
    seq![
        p.embed + 3,
        a.attn_norm + 1,
        a.q + 10,
        a.k + 4,
        a.v + 6,
        a.o + 4,
        a.ffn_norm + 2,
        a.router + 5,
        a.gate[0] + 1,
        a.up[last] + 3,
        a.down[2] + 5,
        b.gate[last] + 7,
        p.final_norm + 2,
        p.lm_head + 9,
    ]
}

/// Each probe lies in the matrix that it is meant for.
pub open spec fn probes_inside(c: MixtralConfig) -> bool {
    &&& 10 < c.q_len()
    &&& 6 < c.kv_len()
    &&& 4 < c.o_len()
    &&& 2 < c.dim
    &&& 5 < c.router_len()
    &&& 7 < c.up_len()
    &&& 5 < c.down_len()
    &&& 9 < c.head_len()
}

/// A key `back` places before its query is visible exactly when that is less
/// than the window, and no key after its query is.
pub proof fn law_visible(c: MixtralConfig, query: int, back: int)
    requires
        0 <= query,
    ensures
        back >= 0 ==> attends(c, query, query - back) == (back < c.sliding_window),
        back < 0 ==> !attends(c, query, query - back),
{
}

/// The tokens of the demo batch go on in steps of five, around the
/// vocabulary.
pub proof fn law_demo_tokens(c: MixtralConfig, i: int)
    requires
        c.vocab > 0,
        0 <= i,
    ensures
        demo_token(c, 0) == 1int % (c.vocab as int),
        demo_token(c, i + 1) == (demo_token(c, i) + 5) % (c.vocab as int),
        0 <= demo_token(c, i) < c.vocab,
{
    let v = c.vocab as int;
    let x = i * 5 + 1;
    vstd::arithmetic::div_mod::lemma_add_mod_noop(x, 5, v);
    vstd::arithmetic::div_mod::lemma_add_mod_noop(x % v, 5, v);
    vstd::arithmetic::div_mod::lemma_mod_twice(x, v);
    assert((i + 1) * 5 + 1 == x + 5);
}

/// The probes of the demo look into each kind of matrix: the embedding, every
/// matrix of the first layer, a gate of the last expert of the second layer,
/// the final norm and the head.
pub proof fn law_probes(c: MixtralConfig)
    requires
        c.layers >= 2,
        c.experts >= 4,
        probes_inside(c),
        c.vocab * c.dim > 3,
    ensures
        ({
            let r = probes_of(c);
            let p = c.places();
            let a = p.layers[0];
            let b = p.layers[1];
            let last = c.experts - 1;
            &&& r.len() == 14
            &&& p.embed <= r[0] < p.embed + c.table_len()
            &&& a.attn_norm <= r[1] < a.attn_norm + c.dim
            &&& a.q <= r[2] < a.q + c.q_len()
            &&& a.k <= r[3] < a.k + c.kv_len()
            &&& a.v <= r[4] < a.v + c.kv_len()
            &&& a.o <= r[5] < a.o + c.o_len()
            &&& a.ffn_norm <= r[6] < a.ffn_norm + c.dim
            &&& a.router <= r[7] < a.router + c.router_len()
            &&& a.gate[0] <= r[8] < a.gate[0] + c.up_len()
            &&& a.up[last] <= r[9] < a.up[last] + c.up_len()
            &&& a.down[2] <= r[10] < a.down[2] + c.down_len()
            &&& b.gate[last] <= r[11] < b.gate[last] + c.up_len()
            &&& p.final_norm <= r[12] < p.final_norm + c.dim
            &&& p.lm_head <= r[13] < p.lm_head + c.head_len()
        }),
{
}

/// Parameter indices whose adjoint is printed and compared.
pub fn demo_probes(cfg: &MixtralConfig) -> (r: Vec<usize>)
    requires
        cfg.fits(),
        cfg.layers >= 2,
        cfg.experts >= 4,
        probes_inside(*cfg),
    ensures
        offsets(r@) == probes_of(*cfg),
        forall|i: int| 0 <= i < r@.len() ==> #[trigger] r@[i] < cfg.total(),
{
    let lay = layout(cfg);
    let ghost c = *cfg;
    let ghost p = c.places();
    let last: usize = cfg.experts - 1;
    proof {
        lemma_lens(c);
        lemma_ends(c);
        lemma_layer_step(c, 0);
        lemma_layer_step(c, 1);
        lemma_expert_step(c, 0, 0);
        lemma_expert_step(c, 0, 2);
        lemma_expert_step(c, 0, last as int);
        lemma_expert_step(c, 1, last as int);
        assert(lay@.layers.len() == c.layers);
        assert(lay@.layers[0] == c.layer_places(0));
        assert(lay@.layers[1] == c.layer_places(1));
        assert(lay.layers@[0]@ == c.layer_places(0));
        assert(lay.layers@[1]@ == c.layer_places(1));
        assert(offsets(lay.layers@[0].gate@).len() == c.experts);
        assert(offsets(lay.layers@[0].up@).len() == c.experts);
        assert(offsets(lay.layers@[0].down@).len() == c.experts);
        assert(offsets(lay.layers@[1].gate@).len() == c.experts);
        assert(offsets(lay.layers@[0].gate@)[0] == c.expert_at(0, 0));
        assert(offsets(lay.layers@[0].up@)[last as int] == c.expert_at(0, last as int) + c.up_len());
        assert(offsets(lay.layers@[0].down@)[2] == c.expert_at(0, 2) + c.up_len() + c.up_len());
        assert(offsets(lay.layers@[1].gate@)[last as int] == c.expert_at(1, last as int));
    }
    let a: &LayerLayout = &lay.layers[0];
    let b: &LayerLayout = &lay.layers[1];
    let r: Vec<usize> = vec![
        lay.embed + 3,
        a.attn_norm + 1,
        a.q + 10,
        a.k + 4,
        a.v + 6,
        a.o + 4,
        a.ffn_norm + 2,
        a.router + 5,
        a.gate[0] + 1,
        a.up[last] + 3,
        a.down[2] + 5,
        b.gate[last] + 7,
        lay.final_norm + 2,
        lay.lm_head + 9,
    ];
    assert(offsets(r@) =~= probes_of(c));
    r
}

// ----- CUDA -----

/// A number as a CUDA program writes a length.
pub open spec fn ull_text(n: int) -> Seq<char> {
    text::filled("$aull"@, seq![text::dec(n)])
}

pub open spec fn csv_text(ns: Seq<int>) -> Seq<char> {
    text::joined(Seq::new(ns.len(), |i: int| ull_text(ns[i])), ", "@)
}

/// One row of offsets for each layer.
pub open spec fn rows_text(groups: Seq<Seq<int>>) -> Seq<char> {
    text::joined(Seq::new(groups.len(), |i: int| text::filled("{ $a }"@, seq![csv_text(groups[i])])), ", "@)
}

pub open spec fn pass_number(p: Pass) -> int {
    match p {
        Pass::Fwd => 0,
        Pass::Bwd => 1,
    }
}

/// The step of the program that runs a window.
pub open spec fn window_text(w: Win) -> Seq<char> {
    text::filled(
        "{$a, $b, $c, $d, $eull, $full, $gull, $hull, $iull, $jull, $kull, $lull, $mull, $n, $o}"@,
        seq![
            text::dec(w.device),
            text::dec(w.home),
            text::dec(pass_number(w.pass)),
            text::dec(crate::cluster::exec_number(w.op)),
            text::dec(w.offset),
            text::dec(w.batch_begin),
            text::dec(w.batch_end),
            text::dec(w.row_begin),
            text::dec(w.row_end),
            text::dec(w.col_begin),
            text::dec(w.col_end),
            text::dec(w.din),
            text::dec(w.dout),
            text::dec(w.layer),
            text::dec(w.expert),
        ],
    )
}

/// The step of the program that carries a hop.
pub open spec fn hop_text(h: Leg) -> Seq<char> {
    text::filled(
        "{$a, $b, 2, 14, $cull, $dull, $eull, $full, $gull, $hull, $iull, 0ull, $jull, $k, 0}"@,
        seq![
            text::dec(h.to),
            text::dec(h.from),
            text::dec(h.offset),
            text::dec(h.elems),
            text::dec(h.bytes),
            text::dec(h.row_begin),
            text::dec(h.row_end),
            text::dec(h.col_begin),
            text::dec(h.col_end),
            text::dec(h.stride),
            text::dec(crate::cluster::hop_number(h.kind)),
        ],
    )
}

pub open spec fn hop_lines(hs: Seq<Leg>) -> Seq<Seq<char>> {
    Seq::new(hs.len(), |i: int| hop_text(hs[i]))
}

/// The steps of a window: its inputs come, it runs, its outputs leave.
pub open spec fn window_lines(w: Win) -> Seq<Seq<char>> {
    hop_lines(w.inbound).push(window_text(w)) + hop_lines(w.outbound)
}

/// The steps of the first `n` windows.
pub open spec fn lines(ws: Seq<Win>, n: int) -> Seq<Seq<char>> {
    crate::theory::listing::cat(n, |i: int| window_lines(ws[i]))
}

pub open spec fn steps_text(ws: Seq<Win>) -> Seq<char> {
    text::joined(lines(ws, ws.len() as int), ",\n"@)
}

pub open spec fn kinds_text(ds: Seq<Dev>) -> Seq<char> {
    text::joined(
        Seq::new(
            ds.len(),
            |i: int|
                if ds[i].kind == DeviceKind::Gpu {
                    "1"@
                } else {
                    "0"@
                },
        ),
        ", "@,
    )
}

/// The bytes that the largest of the first `n` windows needs, at least one.
pub open spec fn scratch(ws: Seq<Win>, n: int) -> int
    decreases n,
{
    if n <= 0 {
        1
    } else {
        crate::theory::plans::most(scratch(ws, n - 1), ws[n - 1].resident)
    }
}

/// The places of the template, in the order in which they are looked for.
pub open spec fn cuda_keys() -> Seq<Seq<char>> {
    seq![
        "@@PROBES@@"@,
        "@@STEPS@@"@,
        "@@KINDS@@"@,
        "@@ROUTER@@"@,
        "@@GATE@@"@,
        "@@DOWN@@"@,
        "@@VOFF@@"@,
        "@@TOPK@@"@,
        "@@SCRATCH@@"@,
        "@@WINDOW@@"@,
        "@@THETA@@"@,
        "@@NDEV@@"@,
        "@@SEQ@@"@,
        "@@EPS@@"@,
        "@@KV@@"@,
        "@@HD@@"@,
        "@@UP@@"@,
        "@@LM@@"@,
        "@@LR@@"@,
        "@@Q@@"@,
        "@@K@@"@,
        "@@O@@"@,
        "@@L@@"@,
        "@@H@@"@,
        "@@E@@"@,
        "@@I@@"@,
        "@@D@@"@,
        "@@V@@"@,
        "@@B@@"@,
        "@@P@@"@,
    ]
}

/// What goes into the places of the template.
pub open spec fn cuda_values(
    c: MixtralConfig,
    batch: int,
    seq: int,
    probes: Seq<int>,
    ds: Seq<Dev>,
    plan: Plan,
    theta: Seq<char>,
    eps: Seq<char>,
    lr: Seq<char>,
) -> Seq<Seq<char>> {
    let p = c.places();
    seq![
        csv_text(probes),
        steps_text(plan.windows),
        kinds_text(ds),
        csv_text(Seq::new(p.layers.len(), |l: int| p.layers[l].router)),
        rows_text(Seq::new(p.layers.len(), |l: int| p.layers[l].gate)),
        rows_text(Seq::new(p.layers.len(), |l: int| p.layers[l].down)),
        csv_text(Seq::new(p.layers.len(), |l: int| p.layers[l].v)),
        ull_text(c.top_k as int),
        ull_text(scratch(plan.windows, plan.windows.len() as int)),
        ull_text(c.sliding_window as int),
        theta,
        text::dec(ds.len() as int),
        ull_text(seq),
        eps,
        ull_text(c.kv_heads as int),
        ull_text(c.head_dim as int),
        rows_text(Seq::new(p.layers.len(), |l: int| p.layers[l].up)),
        ull_text(p.lm_head),
        lr,
        csv_text(Seq::new(p.layers.len(), |l: int| p.layers[l].q)),
        csv_text(Seq::new(p.layers.len(), |l: int| p.layers[l].k)),
        csv_text(Seq::new(p.layers.len(), |l: int| p.layers[l].o)),
        ull_text(c.layers as int),
        ull_text(c.heads as int),
        ull_text(c.experts as int),
        ull_text(c.intermediate as int),
        ull_text(c.dim as int),
        ull_text(c.vocab as int),
        ull_text(batch),
        ull_text(p.total),
    ]
}

/// Where the key stands in the list of keys, and only there, the value stands
/// in the list of values.
pub open spec fn goes_with(keys: Seq<Seq<char>>, values: Seq<Seq<char>>, key: Seq<char>, value: Seq<char>) -> bool {
    &&& keys.len() == values.len()
    &&& exists|i: int| 0 <= i < keys.len() && #[trigger] keys[i] == key
    &&& forall|i: int| 0 <= i < keys.len() && #[trigger] keys[i] == key ==> values[i] == value
}

/// The number of a place, from the length and the first letters of its name.
spec fn place_number(k: Seq<char>) -> int {
    let n = k.len();
    if n == 10 && k[2] == 'P' {
        0
    } else if n == 9 && k[2] == 'S' {
        1
    } else if n == 9 && k[2] == 'K' {
        2
    } else if n == 10 && k[2] == 'R' {
        3
    } else if n == 8 && k[2] == 'G' {
        4
    } else if n == 8 && k[2] == 'D' {
        5
    } else if n == 8 && k[2] == 'V' {
        6
    } else if n == 8 && k[2] == 'T' {
        7
    } else if n == 11 {
        8
    } else if n == 10 && k[2] == 'W' {
        9
    } else if n == 9 && k[2] == 'T' {
        10
    } else if n == 8 && k[2] == 'N' {
        11
    } else if n == 7 && k[2] == 'S' {
        12
    } else if n == 7 && k[2] == 'E' {
        13
    } else if n == 6 && k[2] == 'K' {
        14
    } else if n == 6 && k[2] == 'H' {
        15
    } else if n == 6 && k[2] == 'U' {
        16
    } else if n == 6 && k[2] == 'L' && k[3] == 'M' {
        17
    } else if n == 6 && k[2] == 'L' && k[3] == 'R' {
        18
    } else if n == 5 && k[2] == 'Q' {
        19
    } else if n == 5 && k[2] == 'K' {
        20
    } else if n == 5 && k[2] == 'O' {
        21
    } else if n == 5 && k[2] == 'L' {
        22
    } else if n == 5 && k[2] == 'H' {
        23
    } else if n == 5 && k[2] == 'E' {
        24
    } else if n == 5 && k[2] == 'I' {
        25
    } else if n == 5 && k[2] == 'D' {
        26
    } else if n == 5 && k[2] == 'V' {
        27
    } else if n == 5 && k[2] == 'B' {
        28
    } else if n == 5 && k[2] == 'P' {
        29
    } else {
        -1
    }
}

proof fn lemma_place_numbers()
    ensures
        forall|i: int| 0 <= i < cuda_keys().len() ==> place_number(#[trigger] cuda_keys()[i]) == i,
{
    reveal_strlit("@@PROBES@@");
    reveal_strlit("@@STEPS@@");
    reveal_strlit("@@KINDS@@");
    reveal_strlit("@@ROUTER@@");
    reveal_strlit("@@GATE@@");
    reveal_strlit("@@DOWN@@");
    reveal_strlit("@@VOFF@@");
    reveal_strlit("@@TOPK@@");
    reveal_strlit("@@SCRATCH@@");
    reveal_strlit("@@WINDOW@@");
    reveal_strlit("@@THETA@@");
    reveal_strlit("@@NDEV@@");
    reveal_strlit("@@SEQ@@");
    reveal_strlit("@@EPS@@");
    reveal_strlit("@@KV@@");
    reveal_strlit("@@HD@@");
    reveal_strlit("@@UP@@");
    reveal_strlit("@@LM@@");
    reveal_strlit("@@LR@@");
    reveal_strlit("@@Q@@");
    reveal_strlit("@@K@@");
    reveal_strlit("@@O@@");
    reveal_strlit("@@L@@");
    reveal_strlit("@@H@@");
    reveal_strlit("@@E@@");
    reveal_strlit("@@I@@");
    reveal_strlit("@@D@@");
    reveal_strlit("@@V@@");
    reveal_strlit("@@B@@");
    reveal_strlit("@@P@@");
    let ks = cuda_keys();
    assert(place_number(ks[0]) == 0);
    assert(place_number(ks[1]) == 1);
    assert(place_number(ks[2]) == 2);
    assert(place_number(ks[3]) == 3);
    assert(place_number(ks[4]) == 4);
    assert(place_number(ks[5]) == 5);
    assert(place_number(ks[6]) == 6);
    assert(place_number(ks[7]) == 7);
    assert(place_number(ks[8]) == 8);
    assert(place_number(ks[9]) == 9);
    assert(place_number(ks[10]) == 10);
    assert(place_number(ks[11]) == 11);
    assert(place_number(ks[12]) == 12);
    assert(place_number(ks[13]) == 13);
    assert(place_number(ks[14]) == 14);
    assert(place_number(ks[15]) == 15);
    assert(place_number(ks[16]) == 16);
    assert(place_number(ks[17]) == 17);
    assert(place_number(ks[18]) == 18);
    assert(place_number(ks[19]) == 19);
    assert(place_number(ks[20]) == 20);
    assert(place_number(ks[21]) == 21);
    assert(place_number(ks[22]) == 22);
    assert(place_number(ks[23]) == 23);
    assert(place_number(ks[24]) == 24);
    assert(place_number(ks[25]) == 25);
    assert(place_number(ks[26]) == 26);
    assert(place_number(ks[27]) == 27);
    assert(place_number(ks[28]) == 28);
    assert(place_number(ks[29]) == 29);
    assert forall|i: int| 0 <= i < ks.len() implies place_number(#[trigger] ks[i]) == i by {
        assert(i == 0 || i == 1 || i == 2 || i == 3 || i == 4 || i == 5 || i == 6 || i == 7 || i == 8 || i == 9 || i == 10 || i == 11 || i == 12 || i == 13 || i == 14 || i == 15 || i == 16 || i == 17 || i == 18 || i == 19 || i == 20 || i == 21 || i == 22 || i == 23 || i == 24 || i == 25 || i == 26 || i == 27 || i == 28 || i == 29);
    }
}

/// No two places of the template have one name.
pub proof fn law_places_differ()
    ensures
        cuda_keys().no_duplicates(),
{
    lemma_place_numbers();
    let ks = cuda_keys();
    assert forall|i: int, j: int| 0 <= i < ks.len() && 0 <= j < ks.len() && i != j implies ks[i] != ks[j] by {
        assert(place_number(ks[i]) == i && place_number(ks[j]) == j);
    }
}

/// Each place of the template is filled with what its name says: a size of the
/// model, of the batch or of the cluster, a table of offsets out of the layout
/// of the parameter buffer, the steps of the plan, or a literal.
pub proof fn law_places_filled(
    c: MixtralConfig,
    batch: int,
    seq: int,
    probes: Seq<int>,
    ds: Seq<Dev>,
    plan: Plan,
    theta: Seq<char>,
    eps: Seq<char>,
    lr: Seq<char>,
)
    ensures
        ({
            let ks = cuda_keys();
            let vs = cuda_values(c, batch, seq, probes, ds, plan, theta, eps, lr);
            let at = c.places();
            let n = c.layers as nat;
            let largest = |b: int| (b == 1 || exists|i: int| 0 <= i < plan.windows.len() && (#[trigger] plan.windows[i]).resident == b)
                && b >= 1 && forall|i: int| 0 <= i < plan.windows.len() ==> (#[trigger] plan.windows[i]).resident <= b;
            &&& goes_with(ks, vs, "@@B@@"@, ull_text(batch))
            &&& goes_with(ks, vs, "@@SEQ@@"@, ull_text(seq))
            &&& goes_with(ks, vs, "@@V@@"@, ull_text(c.vocab as int))
            &&& goes_with(ks, vs, "@@D@@"@, ull_text(c.dim as int))
            &&& goes_with(ks, vs, "@@L@@"@, ull_text(c.layers as int))
            &&& goes_with(ks, vs, "@@H@@"@, ull_text(c.heads as int))
            &&& goes_with(ks, vs, "@@KV@@"@, ull_text(c.kv_heads as int))
            &&& goes_with(ks, vs, "@@HD@@"@, ull_text(c.head_dim as int))
            &&& goes_with(ks, vs, "@@I@@"@, ull_text(c.intermediate as int))
            &&& goes_with(ks, vs, "@@E@@"@, ull_text(c.experts as int))
            &&& goes_with(ks, vs, "@@TOPK@@"@, ull_text(c.top_k as int))
            &&& goes_with(ks, vs, "@@WINDOW@@"@, ull_text(c.sliding_window as int))
            &&& goes_with(ks, vs, "@@P@@"@, ull_text(at.total))
            &&& goes_with(ks, vs, "@@LM@@"@, ull_text(at.lm_head))
            &&& goes_with(ks, vs, "@@Q@@"@, csv_text(Seq::new(n, |l: int| at.layers[l].q)))
            &&& goes_with(ks, vs, "@@K@@"@, csv_text(Seq::new(n, |l: int| at.layers[l].k)))
            &&& goes_with(ks, vs, "@@VOFF@@"@, csv_text(Seq::new(n, |l: int| at.layers[l].v)))
            &&& goes_with(ks, vs, "@@O@@"@, csv_text(Seq::new(n, |l: int| at.layers[l].o)))
            &&& goes_with(ks, vs, "@@ROUTER@@"@, csv_text(Seq::new(n, |l: int| at.layers[l].router)))
            &&& goes_with(ks, vs, "@@GATE@@"@, rows_text(Seq::new(n, |l: int| at.layers[l].gate)))
            &&& goes_with(ks, vs, "@@UP@@"@, rows_text(Seq::new(n, |l: int| at.layers[l].up)))
            &&& goes_with(ks, vs, "@@DOWN@@"@, rows_text(Seq::new(n, |l: int| at.layers[l].down)))
            &&& goes_with(ks, vs, "@@PROBES@@"@, csv_text(probes))
            &&& goes_with(ks, vs, "@@NDEV@@"@, text::dec(ds.len() as int))
            &&& goes_with(
                ks,
                vs,
                "@@KINDS@@"@,
                text::joined(
                    Seq::new(
                        ds.len(),
                        |i: int|
                            text::dec(
                                if ds[i].kind == DeviceKind::Gpu {
                                    1
                                } else {
                                    0
                                },
                            ),
                    ),
                    ", "@,
                ),
            )
            &&& exists|b: int| #[trigger] largest(b) && goes_with(ks, vs, "@@SCRATCH@@"@, ull_text(b))
            &&& goes_with(
                ks,
                vs,
                "@@STEPS@@"@,
                text::joined(
                    crate::theory::listing::cat(
                        plan.windows.len() as int,
                        |i: int|
                            Seq::new(plan.windows[i].inbound.len(), |j: int| hop_text(plan.windows[i].inbound[j])) + seq![
                                window_text(plan.windows[i]),
                            ] + Seq::new(plan.windows[i].outbound.len(), |j: int| hop_text(plan.windows[i].outbound[j])),
                    ),
                    ",\n"@,
                ),
            )
            &&& goes_with(ks, vs, "@@THETA@@"@, theta)
            &&& goes_with(ks, vs, "@@EPS@@"@, eps)
            &&& goes_with(ks, vs, "@@LR@@"@, lr)
        }),
{
    let ks = cuda_keys();
    let vs = cuda_values(c, batch, seq, probes, ds, plan, theta, eps, lr);
    let at = c.places();
    law_places_differ();
    assert(at.layers.len() == c.layers);
    assert forall|i: int| 0 <= i < ks.len() implies goes_with(ks, vs, #[trigger] ks[i], vs[i]) by {
    }
    assert(goes_with(ks, vs, ks[0], vs[0]) && goes_with(ks, vs, ks[1], vs[1]) && goes_with(ks, vs, ks[2], vs[2]));
    lemma_kinds(ds);
    lemma_scratch(plan.windows, plan.windows.len() as int);
    lemma_steps(plan.windows);
    let largest = |b: int| (b == 1 || exists|i: int| 0 <= i < plan.windows.len() && (#[trigger] plan.windows[i]).resident == b)
        && b >= 1 && forall|i: int| 0 <= i < plan.windows.len() ==> (#[trigger] plan.windows[i]).resident <= b;
    assert(largest(scratch(plan.windows, plan.windows.len() as int)));
    assert(goes_with(ks, vs, ks[8], vs[8]));
}

/// A device is marked by one digit.
proof fn lemma_kinds(ds: Seq<Dev>)
    ensures
        kinds_text(ds) == text::joined(
            Seq::new(
                ds.len(),
                |i: int|
                    text::dec(
                        if ds[i].kind == DeviceKind::Gpu {
                            1
                        } else {
                            0
                        },
                    ),
            ),
            ", "@,
        ),
{
    reveal_strlit("0");
    reveal_strlit("1");
    assert("0"@ =~= text::dec(0));
    assert("1"@ =~= text::dec(1));
    let a = Seq::new(
        ds.len(),
        |i: int|
            if ds[i].kind == DeviceKind::Gpu {
                "1"@
            } else {
                "0"@
            },
    );
    let b = Seq::new(
        ds.len(),
        |i: int|
            text::dec(
                if ds[i].kind == DeviceKind::Gpu {
                    1
                } else {
                    0
                },
            ),
    );
    assert(a =~= b);
}

/// The scratch buffer is as large as the largest of the windows, and no
/// larger.
proof fn lemma_scratch(ws: Seq<Win>, n: int)
    requires
        0 <= n <= ws.len(),
    ensures
        scratch(ws, n) >= 1,
        forall|i: int| 0 <= i < n ==> (#[trigger] ws[i]).resident <= scratch(ws, n),
        scratch(ws, n) == 1 || exists|i: int| 0 <= i < n && (#[trigger] ws[i]).resident == scratch(ws, n),
    decreases n,
{
    if n > 0 {
        lemma_scratch(ws, n - 1);
        assert(ws[n - 1].resident <= scratch(ws, n));
    }
}

proof fn lemma_steps(ws: Seq<Win>)
    ensures
        steps_text(ws) == text::joined(
            crate::theory::listing::cat(
                ws.len() as int,
                |i: int|
                    Seq::new(ws[i].inbound.len(), |j: int| hop_text(ws[i].inbound[j])) + seq![window_text(ws[i])] + Seq::new(
                        ws[i].outbound.len(),
                        |j: int| hop_text(ws[i].outbound[j]),
                    ),
            ),
            ",\n"@,
        ),
{
    let f = |i: int| window_lines(ws[i]);
    let g = |i: int|
        Seq::new(ws[i].inbound.len(), |j: int| hop_text(ws[i].inbound[j])) + seq![window_text(ws[i])] + Seq::new(
            ws[i].outbound.len(),
            |j: int| hop_text(ws[i].outbound[j]),
        );
    assert forall|i: int| 0 <= i < ws.len() implies #[trigger] f(i) == g(i) by {
        assert(f(i) =~= g(i));
    }
    crate::theory::plan_laws::lemma_cat_ext(ws.len() as int, f, g);
}

/// A window becomes one step of the program: its device and its home, its
/// pass, its operation, its place in the parameter buffer, its box of batch,
/// rows and columns, its two sizes, its layer and its expert, in this order.
/// The operations are numbered from one, from the embedding to the update.
pub proof fn law_window_step(w: Win)
    ensures
        ({
            let pass: int = if w.pass == Pass::Fwd {
                0
            } else {
                1
            };
            let op: int = match w.op {
                crate::cluster::Exec::Embed => 1,
                crate::cluster::Exec::RmsNorm => 2,
                crate::cluster::Exec::Linear => 3,
                crate::cluster::Exec::RopeQ => 4,
                crate::cluster::Exec::RopeK => 5,
                crate::cluster::Exec::Gqa => 6,
                crate::cluster::Exec::AddAttn => 7,
                crate::cluster::Exec::AddMoe => 8,
                crate::cluster::Exec::Router => 9,
                crate::cluster::Exec::Silu => 10,
                crate::cluster::Exec::Mix => 11,
                crate::cluster::Exec::Loss => 12,
                crate::cluster::Exec::Sgd => 13,
            };
            window_text(w) == "{"@ + text::dec(w.device) + ", "@ + text::dec(w.home) + ", "@ + text::dec(pass) + ", "@ + text::dec(op) + ", "@ + text::dec(w.offset) + "ull, "@ + text::dec(w.batch_begin) + "ull, "@ + text::dec(w.batch_end) + "ull, "@ + text::dec(w.row_begin) + "ull, "@ + text::dec(w.row_end) + "ull, "@ + text::dec(w.col_begin) + "ull, "@ + text::dec(w.col_end) + "ull, "@ + text::dec(w.din) + "ull, "@ + text::dec(w.dout) + "ull, "@ + text::dec(w.layer) + ", "@ + text::dec(w.expert) + "}"@
        }),
{
    let t = "{$a, $b, $c, $d, $eull, $full, $gull, $hull, $iull, $jull, $kull, $lull, $mull, $n, $o}"@;
    let args = seq![
        text::dec(w.device),
        text::dec(w.home),
        text::dec(pass_number(w.pass)),
        text::dec(crate::cluster::exec_number(w.op)),
        text::dec(w.offset),
        text::dec(w.batch_begin),
        text::dec(w.batch_end),
        text::dec(w.row_begin),
        text::dec(w.row_end),
        text::dec(w.col_begin),
        text::dec(w.col_end),
        text::dec(w.din),
        text::dec(w.dout),
        text::dec(w.layer),
        text::dec(w.expert),
    ];
    reveal_strlit("{$a, $b, $c, $d, $eull, $full, $gull, $hull, $iull, $jull, $kull, $lull, $mull, $n, $o}");
    let d0 = Seq::<char>::empty();
    assert(text::filled_from(t, args, 0) =~= d0 + text::filled_from(t, args, 0));
    reveal_strlit("{");
    assert(t.subrange(0, 1) =~= "{"@);
    text::lemma_copied(t, args, 0, d0, 0, "{"@);
    assert(d0 + "{"@ =~= "{"@);
    let d1 = "{"@;
    text::lemma_placed(t, args, 0, d1, 1, 0);
    let d2 = d1 + args[0];
    reveal_strlit(", ");
    assert(t.subrange(3, 5) =~= ", "@);
    text::lemma_copied(t, args, 0, d2, 3, ", "@);
    let d3 = d2 + ", "@;
    text::lemma_placed(t, args, 0, d3, 5, 1);
    let d4 = d3 + args[1];
    assert(t.subrange(7, 9) =~= ", "@);
    text::lemma_copied(t, args, 0, d4, 7, ", "@);
    let d5 = d4 + ", "@;
    text::lemma_placed(t, args, 0, d5, 9, 2);
    let d6 = d5 + args[2];
    assert(t.subrange(11, 13) =~= ", "@);
    text::lemma_copied(t, args, 0, d6, 11, ", "@);
    let d7 = d6 + ", "@;
    text::lemma_placed(t, args, 0, d7, 13, 3);
    let d8 = d7 + args[3];
    assert(t.subrange(15, 17) =~= ", "@);
    text::lemma_copied(t, args, 0, d8, 15, ", "@);
    let d9 = d8 + ", "@;
    text::lemma_placed(t, args, 0, d9, 17, 4);
    let d10 = d9 + args[4];
    reveal_strlit("ull, ");
    assert(t.subrange(19, 24) =~= "ull, "@);
    text::lemma_copied(t, args, 0, d10, 19, "ull, "@);
    let d11 = d10 + "ull, "@;
    text::lemma_placed(t, args, 0, d11, 24, 5);
    let d12 = d11 + args[5];
    assert(t.subrange(26, 31) =~= "ull, "@);
    text::lemma_copied(t, args, 0, d12, 26, "ull, "@);
    let d13 = d12 + "ull, "@;
    text::lemma_placed(t, args, 0, d13, 31, 6);
    let d14 = d13 + args[6];
    assert(t.subrange(33, 38) =~= "ull, "@);
    text::lemma_copied(t, args, 0, d14, 33, "ull, "@);
    let d15 = d14 + "ull, "@;
    text::lemma_placed(t, args, 0, d15, 38, 7);
    let d16 = d15 + args[7];
    assert(t.subrange(40, 45) =~= "ull, "@);
    text::lemma_copied(t, args, 0, d16, 40, "ull, "@);
    let d17 = d16 + "ull, "@;
    text::lemma_placed(t, args, 0, d17, 45, 8);
    let d18 = d17 + args[8];
    assert(t.subrange(47, 52) =~= "ull, "@);
    text::lemma_copied(t, args, 0, d18, 47, "ull, "@);
    let d19 = d18 + "ull, "@;
    text::lemma_placed(t, args, 0, d19, 52, 9);
    let d20 = d19 + args[9];
    assert(t.subrange(54, 59) =~= "ull, "@);
    text::lemma_copied(t, args, 0, d20, 54, "ull, "@);
    let d21 = d20 + "ull, "@;
    text::lemma_placed(t, args, 0, d21, 59, 10);
    let d22 = d21 + args[10];
    assert(t.subrange(61, 66) =~= "ull, "@);
    text::lemma_copied(t, args, 0, d22, 61, "ull, "@);
    let d23 = d22 + "ull, "@;
    text::lemma_placed(t, args, 0, d23, 66, 11);
    let d24 = d23 + args[11];
    assert(t.subrange(68, 73) =~= "ull, "@);
    text::lemma_copied(t, args, 0, d24, 68, "ull, "@);
    let d25 = d24 + "ull, "@;
    text::lemma_placed(t, args, 0, d25, 73, 12);
    let d26 = d25 + args[12];
    assert(t.subrange(75, 80) =~= "ull, "@);
    text::lemma_copied(t, args, 0, d26, 75, "ull, "@);
    let d27 = d26 + "ull, "@;
    text::lemma_placed(t, args, 0, d27, 80, 13);
    let d28 = d27 + args[13];
    assert(t.subrange(82, 84) =~= ", "@);
    text::lemma_copied(t, args, 0, d28, 82, ", "@);
    let d29 = d28 + ", "@;
    text::lemma_placed(t, args, 0, d29, 84, 14);
    let d30 = d29 + args[14];
    reveal_strlit("}");
    assert(t.subrange(86, 87) =~= "}"@);
    text::lemma_copied(t, args, 0, d30, 86, "}"@);
    let d31 = d30 + "}"@;
    assert(d31 + Seq::<char>::empty() =~= d31);
}

/// A hop becomes one step of the program: where it ends and where it starts,
/// the pass and the operation of a transfer, its place in the parameter
/// buffer, its elements and bytes, its box, its stride and its kind, in this
/// order. Parameters are numbered zero, adjoints one, activations two.
pub proof fn law_hop_step(h: Leg)
    ensures
        ({
            let kind: int = match h.kind {
                crate::cluster::HopKind::Param => 0,
                crate::cluster::HopKind::Adjoint => 1,
                crate::cluster::HopKind::Activation => 2,
            };
            hop_text(h) == "{"@ + text::dec(h.to) + ", "@ + text::dec(h.from) + ", 2, 14, "@ + text::dec(h.offset) + "ull, "@ + text::dec(h.elems) + "ull, "@ + text::dec(h.bytes) + "ull, "@ + text::dec(h.row_begin) + "ull, "@ + text::dec(h.row_end) + "ull, "@ + text::dec(h.col_begin) + "ull, "@ + text::dec(h.col_end) + "ull, 0ull, "@ + text::dec(h.stride) + "ull, "@ + text::dec(kind) + ", 0}"@
        }),
{
    let t = "{$a, $b, 2, 14, $cull, $dull, $eull, $full, $gull, $hull, $iull, 0ull, $jull, $k, 0}"@;
    let args = seq![
        text::dec(h.to),
        text::dec(h.from),
        text::dec(h.offset),
        text::dec(h.elems),
        text::dec(h.bytes),
        text::dec(h.row_begin),
        text::dec(h.row_end),
        text::dec(h.col_begin),
        text::dec(h.col_end),
        text::dec(h.stride),
        text::dec(crate::cluster::hop_number(h.kind)),
    ];
    reveal_strlit("{$a, $b, 2, 14, $cull, $dull, $eull, $full, $gull, $hull, $iull, 0ull, $jull, $k, 0}");
    let d0 = Seq::<char>::empty();
    assert(text::filled_from(t, args, 0) =~= d0 + text::filled_from(t, args, 0));
    reveal_strlit("{");
    assert(t.subrange(0, 1) =~= "{"@);
    text::lemma_copied(t, args, 0, d0, 0, "{"@);
    assert(d0 + "{"@ =~= "{"@);
    let d1 = "{"@;
    text::lemma_placed(t, args, 0, d1, 1, 0);
    let d2 = d1 + args[0];
    reveal_strlit(", ");
    assert(t.subrange(3, 5) =~= ", "@);
    text::lemma_copied(t, args, 0, d2, 3, ", "@);
    let d3 = d2 + ", "@;
    text::lemma_placed(t, args, 0, d3, 5, 1);
    let d4 = d3 + args[1];
    reveal_strlit(", 2, 14, ");
    assert(t.subrange(7, 16) =~= ", 2, 14, "@);
    text::lemma_copied(t, args, 0, d4, 7, ", 2, 14, "@);
    let d5 = d4 + ", 2, 14, "@;
    text::lemma_placed(t, args, 0, d5, 16, 2);
    let d6 = d5 + args[2];
    reveal_strlit("ull, ");
    assert(t.subrange(18, 23) =~= "ull, "@);
    text::lemma_copied(t, args, 0, d6, 18, "ull, "@);
    let d7 = d6 + "ull, "@;
    text::lemma_placed(t, args, 0, d7, 23, 3);
    let d8 = d7 + args[3];
    assert(t.subrange(25, 30) =~= "ull, "@);
    text::lemma_copied(t, args, 0, d8, 25, "ull, "@);
    let d9 = d8 + "ull, "@;
    text::lemma_placed(t, args, 0, d9, 30, 4);
    let d10 = d9 + args[4];
    assert(t.subrange(32, 37) =~= "ull, "@);
    text::lemma_copied(t, args, 0, d10, 32, "ull, "@);
    let d11 = d10 + "ull, "@;
    text::lemma_placed(t, args, 0, d11, 37, 5);
    let d12 = d11 + args[5];
    assert(t.subrange(39, 44) =~= "ull, "@);
    text::lemma_copied(t, args, 0, d12, 39, "ull, "@);
    let d13 = d12 + "ull, "@;
    text::lemma_placed(t, args, 0, d13, 44, 6);
    let d14 = d13 + args[6];
    assert(t.subrange(46, 51) =~= "ull, "@);
    text::lemma_copied(t, args, 0, d14, 46, "ull, "@);
    let d15 = d14 + "ull, "@;
    text::lemma_placed(t, args, 0, d15, 51, 7);
    let d16 = d15 + args[7];
    assert(t.subrange(53, 58) =~= "ull, "@);
    text::lemma_copied(t, args, 0, d16, 53, "ull, "@);
    let d17 = d16 + "ull, "@;
    text::lemma_placed(t, args, 0, d17, 58, 8);
    let d18 = d17 + args[8];
    reveal_strlit("ull, 0ull, ");
    assert(t.subrange(60, 71) =~= "ull, 0ull, "@);
    text::lemma_copied(t, args, 0, d18, 60, "ull, 0ull, "@);
    let d19 = d18 + "ull, 0ull, "@;
    text::lemma_placed(t, args, 0, d19, 71, 9);
    let d20 = d19 + args[9];
    assert(t.subrange(73, 78) =~= "ull, "@);
    text::lemma_copied(t, args, 0, d20, 73, "ull, "@);
    let d21 = d20 + "ull, "@;
    text::lemma_placed(t, args, 0, d21, 78, 10);
    let d22 = d21 + args[10];
    reveal_strlit(", 0}");
    assert(t.subrange(80, 84) =~= ", 0}"@);
    text::lemma_copied(t, args, 0, d22, 80, ", 0}"@);
    let d23 = d22 + ", 0}"@;
    assert(d23 + Seq::<char>::empty() =~= d23);
}

/// A table of rows begins with the first number of its first row.
proof fn lemma_rows_lead(groups: Seq<Seq<int>>) -> (rest: Seq<char>)
    requires
        groups.len() > 0,
        groups[0].len() > 0,
    ensures
        rows_text(groups) == "{ "@ + text::dec(groups[0][0]) + "ull"@ + rest,
{
    let rows = Seq::new(groups.len(), |i: int| text::filled("{ $a }"@, seq![csv_text(groups[i])]));
    let nums = Seq::new(groups[0].len(), |i: int| ull_text(groups[0][i]));
    let r1 = text::lemma_joined_lead(rows, ", "@);
    let r2 = text::lemma_joined_lead(nums, ", "@);
    lemma_row_text(csv_text(groups[0]));
    lemma_ull_text(groups[0][0]);
    let rest = r2 + " }"@ + r1;
    assert(rows[0] == "{ "@ + csv_text(groups[0]) + " }"@);
    assert(nums[0] == text::dec(groups[0][0]) + "ull"@);
    assert("{ "@ + (text::dec(groups[0][0]) + "ull"@ + r2) + " }"@ + r1 =~= "{ "@ + text::dec(groups[0][0]) + "ull"@ + rest);
    rest
}

proof fn lemma_row_text(x: Seq<char>)
    ensures
        text::filled("{ $a }"@, seq![x]) == "{ "@ + x + " }"@,
{
    let t = "{ $a }"@;
    let args = seq![x];
    reveal_strlit("{ $a }");
    let d0 = Seq::<char>::empty();
    assert(text::filled_from(t, args, 0) =~= d0 + text::filled_from(t, args, 0));
    reveal_strlit("{ ");
    assert(t.subrange(0, 2) =~= "{ "@);
    text::lemma_copied(t, args, 0, d0, 0, "{ "@);
    assert(d0 + "{ "@ =~= "{ "@);
    let d1 = "{ "@;
    text::lemma_placed(t, args, 0, d1, 2, 0);
    let d2 = d1 + args[0];
    reveal_strlit(" }");
    assert(t.subrange(4, 6) =~= " }"@);
    text::lemma_copied(t, args, 0, d2, 4, " }"@);
    let d3 = d2 + " }"@;
    assert(d3 + Seq::<char>::empty() =~= d3);
}

proof fn lemma_ull_text(n: int)
    ensures
        ull_text(n) == text::dec(n) + "ull"@,
{
    let t = "$aull"@;
    let args = seq![text::dec(n)];
    reveal_strlit("$aull");
    let d0 = Seq::<char>::empty();
    assert(text::filled_from(t, args, 0) =~= d0 + text::filled_from(t, args, 0));
    text::lemma_placed(t, args, 0, d0, 0, 0);
    assert(d0 + args[0] =~= args[0]);
    let d1 = args[0];
    reveal_strlit("ull");
    assert(t.subrange(2, 5) =~= "ull"@);
    text::lemma_copied(t, args, 0, d1, 2, "ull"@);
    let d2 = d1 + "ull"@;
    assert(d2 + Seq::<char>::empty() =~= d2);
}

/// Where an expert has parameters, the tables of gate, up and down offsets
/// are three different texts.
pub proof fn law_tables_differ(c: MixtralConfig)
    requires
        c.layers > 0,
        c.experts > 0,
        c.dim * c.intermediate > 0,
    ensures
        ({
            let at = c.places();
            let n = c.layers as nat;
            let gate = rows_text(Seq::new(n, |l: int| at.layers[l].gate));
            let up = rows_text(Seq::new(n, |l: int| at.layers[l].up));
            let down = rows_text(Seq::new(n, |l: int| at.layers[l].down));
            gate != up && up != down && gate != down
        }),
{
    let at = c.places();
    let n = c.layers as nat;
    let gate = Seq::new(n, |l: int| at.layers[l].gate);
    let up = Seq::new(n, |l: int| at.layers[l].up);
    let down = Seq::new(n, |l: int| at.layers[l].down);
    lemma_lens(c);
    lemma_ends(c);
    let a = lemma_rows_lead(gate);
    let b = lemma_rows_lead(up);
    let d = lemma_rows_lead(down);
    let x = gate[0][0];
    assert(x == c.expert_at(0, 0) && x >= 0);
    assert(up[0][0] == x + c.up_len());
    assert(down[0][0] == x + c.up_len() + c.up_len());
    if rows_text(gate) == rows_text(up) {
        text::lemma_same_lead("{ "@, x, a, up[0][0], b);
    }
    if rows_text(up) == rows_text(down) {
        text::lemma_same_lead("{ "@, up[0][0], b, down[0][0], d);
    }
    if rows_text(gate) == rows_text(down) {
        text::lemma_same_lead("{ "@, x, a, down[0][0], d);
    }
}

/// Why there is no program.
pub enum EmitFault {
    Stage { fault: Fault },
    /// The template lacks this place when its turn comes.
    Missing { key: Seq<char> },
    /// The mark of a place is left that nothing fills.
    Unfilled,
}

/// The text with the places from number `k` on filled, one after the other.
/// Each must be there when its turn comes, and no mark of a place may be left.
pub open spec fn places_filled(t: Seq<char>, keys: Seq<Seq<char>>, values: Seq<Seq<char>>, k: int) -> Result<
    Seq<char>,
    EmitFault,
>
    decreases keys.len() - k,
{
    if k >= keys.len() {
        if text::occurs(t, "@@"@) {
            Err(EmitFault::Unfilled)
        } else {
            Ok(t)
        }
    } else if !text::occurs(t, keys[k]) {
        Err(EmitFault::Missing { key: keys[k] })
    } else {
        places_filled(text::replaced(t, keys[k], values[k]), keys, values, k + 1)
    }
}

/// The program that a template becomes with these values.
pub open spec fn cuda_source(t: Seq<char>, values: Seq<Seq<char>>) -> Result<Seq<char>, EmitFault> {
    places_filled(t, cuda_keys(), values, 0)
}

/// No mark of a place is left in a program.
pub proof fn law_no_place_left(t: Seq<char>, values: Seq<Seq<char>>)
    ensures
        cuda_source(t, values) matches Ok(src) ==> !text::occurs(src, "@@"@),
{
    lemma_no_place_left(t, cuda_keys(), values, 0);
}

proof fn lemma_no_place_left(t: Seq<char>, keys: Seq<Seq<char>>, values: Seq<Seq<char>>, k: int)
    ensures
        places_filled(t, keys, values, k) matches Ok(src) ==> !text::occurs(src, "@@"@),
    decreases keys.len() - k,
{
    if k < keys.len() {
        lemma_no_place_left(text::replaced(t, keys[k], values[k]), keys, values, k + 1);
    }
}

#[derive(Debug)]
pub enum EmitError {
    Stage(StageError),
    Missing(String),
    Unfilled,
}

impl View for EmitError {
    type V = EmitFault;

    open spec fn view(&self) -> EmitFault {
        match *self {
            EmitError::Stage(e) => EmitFault::Stage { fault: e@ },
            EmitError::Missing(key) => EmitFault::Missing { key: key@ },
            EmitError::Unfilled => EmitFault::Unfilled,
        }
    }
}

fn fill(template: &str, args: &Vec<String>) -> (r: String)
    ensures
        r@ == text::filled(template@, text::texts(args@)),
{
    let mut out = String::new();
    text::push_filled(&mut out, template, args.as_slice());
    assert(out@ =~= text::filled(template@, text::texts(args@)));
    out
}

fn ull(v: u64) -> (r: String)
    ensures
        r@ == ull_text(v as int),
{
    let args: Vec<String> = vec![text::decimal(v)];
    assert(text::texts(args@) =~= seq![text::dec(v as int)]);
    fill("$aull", &args)
}

fn csv(values: &Vec<usize>) -> (r: String)
    ensures
        r@ == csv_text(offsets(values@)),
{
    let ghost want = Seq::new(offsets(values@).len(), |i: int| ull_text(offsets(values@)[i]));
    let mut items: Vec<String> = Vec::new();
    let mut i: usize = 0;
    while i < values.len()
        invariant
            i <= values@.len(),
            items@.len() == i,
            forall|k: int| 0 <= k < i ==> (#[trigger] items@[k])@ == ull_text(values@[k] as int),
        decreases values.len() - i,
    {
        items.push(ull(values[i] as u64));
        i = i + 1;
    }
    assert(text::texts(items@) =~= want);
    text::join(items.as_slice(), ", ")
}

fn window_step(w: &Window) -> (r: String)
    ensures
        r@ == window_text(w@),
{
    let pass: u64 = match w.pass {
        Pass::Fwd => 0,
        Pass::Bwd => 1,
    };
    let args: Vec<String> = vec![
        text::decimal(w.device as u64),
        text::decimal(w.home as u64),
        text::decimal(pass),
        text::decimal(w.op.code() as u64),
        text::decimal(w.param_offset),
        text::decimal(w.batch_begin),
        text::decimal(w.batch_end),
        text::decimal(w.row_begin),
        text::decimal(w.row_end),
        text::decimal(w.col_begin),
        text::decimal(w.col_end),
        text::decimal(w.din),
        text::decimal(w.dout),
        text::decimal(w.layer as u64),
        text::decimal(w.expert as u64),
    ];
    let ghost v = w@;
    assert(text::texts(args@) =~= seq![
        text::dec(v.device),
        text::dec(v.home),
        text::dec(pass_number(v.pass)),
        text::dec(crate::cluster::exec_number(v.op)),
        text::dec(v.offset),
        text::dec(v.batch_begin),
        text::dec(v.batch_end),
        text::dec(v.row_begin),
        text::dec(v.row_end),
        text::dec(v.col_begin),
        text::dec(v.col_end),
        text::dec(v.din),
        text::dec(v.dout),
        text::dec(v.layer),
        text::dec(v.expert),
    ]);
    fill("{$a, $b, $c, $d, $eull, $full, $gull, $hull, $iull, $jull, $kull, $lull, $mull, $n, $o}", &args)
}

fn hop_step(h: &Hop) -> (r: String)
    ensures
        r@ == hop_text(h@),
{
    let args: Vec<String> = vec![
        text::decimal(h.to as u64),
        text::decimal(h.from as u64),
        text::decimal(h.offset),
        text::decimal(h.elems),
        text::decimal(h.bytes),
        text::decimal(h.row_begin),
        text::decimal(h.row_end),
        text::decimal(h.col_begin),
        text::decimal(h.col_end),
        text::decimal(h.stride),
        text::decimal(h.kind.code() as u64),
    ];
    let ghost v = h@;
    assert(text::texts(args@) =~= seq![
        text::dec(v.to),
        text::dec(v.from),
        text::dec(v.offset),
        text::dec(v.elems),
        text::dec(v.bytes),
        text::dec(v.row_begin),
        text::dec(v.row_end),
        text::dec(v.col_begin),
        text::dec(v.col_end),
        text::dec(v.stride),
        text::dec(crate::cluster::hop_number(v.kind)),
    ]);
    fill("{$a, $b, 2, 14, $cull, $dull, $eull, $full, $gull, $hull, $iull, 0ull, $jull, $k, 0}", &args)
}

fn push_hops(lines: &mut Vec<String>, hops: &Vec<Hop>)
    ensures
        text::texts(final(lines)@) == text::texts(old(lines)@) + hop_lines(crate::theory::listing::views(hops@)),
{
    let ghost start = text::texts(lines@);
    let ghost hs = hop_lines(crate::theory::listing::views(hops@));
    let mut i: usize = 0;
    assert(text::texts(lines@) =~= start + hs.take(0));
    while i < hops.len()
        invariant
            i <= hops@.len(),
            hs == hop_lines(crate::theory::listing::views(hops@)),
            text::texts(lines@) == start + hs.take(i as int),
        decreases hops.len() - i,
    {
        let ghost before = text::texts(lines@);
        let line = hop_step(&hops[i]);
        proof {
            assert(hs[i as int] == line@);
        }
        lines.push(line);
        assert(text::texts(lines@) =~= before.push(line@));
        assert(text::texts(lines@) =~= start + hs.take(i + 1));
        i = i + 1;
    }
    assert(hs.take(i as int) =~= hs);
}

/// The steps of a plan.
fn steps(plan: &StagePlan) -> (r: String)
    ensures
        r@ == steps_text(plan@.windows),
{
    let ghost ws = plan@.windows;
    let ghost f = |i: int| window_lines(ws[i]);
    let mut all: Vec<String> = Vec::new();
    let mut i: usize = 0;
    assert(text::texts(all@) =~= crate::theory::listing::cat(0, f));
    while i < plan.windows.len()
        invariant
            i <= plan.windows@.len(),
            ws == plan@.windows,
            f == (|i: int| window_lines(ws[i])),
            text::texts(all@) == crate::theory::listing::cat(i as int, f),
        decreases plan.windows.len() - i,
    {
        let w: &Window = &plan.windows[i];
        let ghost before = text::texts(all@);
        assert(ws[i as int] == w@);
        push_hops(&mut all, &w.inbound);
        let ghost mid = text::texts(all@);
        let line = window_step(w);
        all.push(line);
        assert(text::texts(all@) =~= mid.push(line@));
        push_hops(&mut all, &w.outbound);
        proof {
            assert(text::texts(all@) =~= before + window_lines(ws[i as int]));
            assert(text::texts(all@) =~= crate::theory::listing::cat(i + 1, f));
        }
        i = i + 1;
    }
    text::join(all.as_slice(), ",\n")
}

fn kinds(cluster: &Cluster) -> (r: String)
    ensures
        r@ == kinds_text(cluster.devs()),
{
    let ghost ds = cluster.devs();
    let mut items: Vec<String> = Vec::new();
    let mut i: usize = 0;
    while i < cluster.devices.len()
        invariant
            i <= cluster.devices@.len(),
            ds == cluster.devs(),
            items@.len() == i,
            forall|k: int|
                0 <= k < i ==> (#[trigger] items@[k])@ == if ds[k].kind == DeviceKind::Gpu {
                    "1"@
                } else {
                    "0"@
                },
        decreases cluster.devices.len() - i,
    {
        assert(ds[i as int] == cluster.devices@[i as int]@);
        if cluster.devices[i].kind == DeviceKind::Gpu {
            items.push(String::from_str("1"));
        } else {
            items.push(String::from_str("0"));
        }
        i = i + 1;
    }
    assert(text::texts(items@) =~= Seq::new(
        ds.len(),
        |i: int|
            if ds[i].kind == DeviceKind::Gpu {
                "1"@
            } else {
                "0"@
            },
    ));
    text::join(items.as_slice(), ", ")
}

fn scratch_of(plan: &StagePlan) -> (r: u64)
    ensures
        r == scratch(plan@.windows, plan@.windows.len() as int),
{
    let ghost ws = plan@.windows;
    let mut most: u64 = 1;
    let mut i: usize = 0;
    while i < plan.windows.len()
        invariant
            i <= plan.windows@.len(),
            ws == plan@.windows,
            most == scratch(ws, i as int),
        decreases plan.windows.len() - i,
    {
        assert(ws[i as int] == plan.windows@[i as int]@);
        if most < plan.windows[i].resident_bytes {
            most = plan.windows[i].resident_bytes;
        }
        i = i + 1;
    }
    most
}

/// One offset of each layer: router, value, query, key, output.
pub open spec fn column_of(p: LayerPlaces, which: int) -> int {
    if which == 0 {
        p.router
    } else if which == 1 {
        p.v
    } else if which == 2 {
        p.q
    } else if which == 3 {
        p.k
    } else {
        p.o
    }
}

fn column(lay: &Layout, which: u8) -> (r: Vec<usize>)
    ensures
        offsets(r@) == Seq::new(lay@.layers.len(), |l: int| column_of(lay@.layers[l], which as int)),
{
    let mut r: Vec<usize> = Vec::new();
    let mut l: usize = 0;
    while l < lay.layers.len()
        invariant
            l <= lay.layers@.len(),
            r@.len() == l,
            forall|k: int| 0 <= k < l ==> #[trigger] r@[k] == column_of(lay@.layers[k], which as int),
        decreases lay.layers.len() - l,
    {
        assert(lay@.layers[l as int] == lay.layers@[l as int]@);
        let y: &LayerLayout = &lay.layers[l];
        if which == 0 {
            r.push(y.router);
        } else if which == 1 {
            r.push(y.v);
        } else if which == 2 {
            r.push(y.q);
        } else if which == 3 {
            r.push(y.k);
        } else {
            r.push(y.o);
        }
        l = l + 1;
    }
    assert(offsets(r@) =~= Seq::new(lay@.layers.len(), |l: int| column_of(lay@.layers[l], which as int)));
    r
}

/// One list of each layer: gates, ups, downs.
pub open spec fn list_of(p: LayerPlaces, which: int) -> Seq<int> {
    if which == 0 {
        p.gate
    } else if which == 1 {
        p.up
    } else {
        p.down
    }
}

fn rows(lay: &Layout, which: u8) -> (r: String)
    ensures
        r@ == rows_text(Seq::new(lay@.layers.len(), |l: int| list_of(lay@.layers[l], which as int))),
{
    let ghost groups = Seq::new(lay@.layers.len(), |l: int| list_of(lay@.layers[l], which as int));
    let mut items: Vec<String> = Vec::new();
    let mut l: usize = 0;
    while l < lay.layers.len()
        invariant
            l <= lay.layers@.len(),
            groups == Seq::new(lay@.layers.len(), |l: int| list_of(lay@.layers[l], which as int)),
            items@.len() == l,
            forall|k: int| 0 <= k < l ==> (#[trigger] items@[k])@ == text::filled("{ $a }"@, seq![csv_text(groups[k])]),
        decreases lay.layers.len() - l,
    {
        assert(lay@.layers[l as int] == lay.layers@[l as int]@);
        let y: &LayerLayout = &lay.layers[l];
        let list = if which == 0 {
            csv(&y.gate)
        } else if which == 1 {
            csv(&y.up)
        } else {
            csv(&y.down)
        };
        let args: Vec<String> = vec![list];
        assert(text::texts(args@) =~= seq![csv_text(groups[l as int])]);
        items.push(fill("{ $a }", &args));
        l = l + 1;
    }
    assert(text::texts(items@) =~= Seq::new(groups.len(), |i: int| text::filled("{ $a }"@, seq![csv_text(groups[i])])));
    text::join(items.as_slice(), ", ")
}

fn values_of(
    cfg: &MixtralConfig,
    lay: &Layout,
    batch: usize,
    seq: usize,
    probes: &[usize],
    cluster: &Cluster,
    plan: &StagePlan,
    theta: &str,
    eps: &str,
    lr: &str,
) -> (r: Vec<String>)
    requires
        lay@ == cfg.places(),
    ensures
        text::texts(r@) == cuda_values(
            *cfg,
            batch as int,
            seq as int,
            offsets(probes@),
            cluster.devs(),
            plan@,
            theta@,
            eps@,
            lr@,
        ),
{
    let ghost p = cfg.places();
    let probes_vec: Vec<usize> = copied(probes);
    let r: Vec<String> = vec![
        csv(&probes_vec),
        steps(plan),
        kinds(cluster),
        csv(&column(lay, 0)),
        rows(lay, 0),
        rows(lay, 2),
        csv(&column(lay, 1)),
        ull(cfg.top_k as u64),
        ull(scratch_of(plan)),
        ull(cfg.sliding_window as u64),
        String::from_str(theta),
        text::decimal(cluster.devices.len() as u64),
        ull(seq as u64),
        String::from_str(eps),
        ull(cfg.kv_heads as u64),
        ull(cfg.head_dim as u64),
        rows(lay, 1),
        ull(lay.lm_head as u64),
        String::from_str(lr),
        csv(&column(lay, 2)),
        csv(&column(lay, 3)),
        csv(&column(lay, 4)),
        ull(cfg.layers as u64),
        ull(cfg.heads as u64),
        ull(cfg.experts as u64),
        ull(cfg.intermediate as u64),
        ull(cfg.dim as u64),
        ull(cfg.vocab as u64),
        ull(batch as u64),
        ull(lay.total as u64),
    ];
    proof {
        let n = p.layers.len();
        assert(Seq::new(n, |l: int| column_of(p.layers[l], 0)) =~= Seq::new(n, |l: int| p.layers[l].router));
        assert(Seq::new(n, |l: int| column_of(p.layers[l], 1)) =~= Seq::new(n, |l: int| p.layers[l].v));
        assert(Seq::new(n, |l: int| column_of(p.layers[l], 2)) =~= Seq::new(n, |l: int| p.layers[l].q));
        assert(Seq::new(n, |l: int| column_of(p.layers[l], 3)) =~= Seq::new(n, |l: int| p.layers[l].k));
        assert(Seq::new(n, |l: int| column_of(p.layers[l], 4)) =~= Seq::new(n, |l: int| p.layers[l].o));
        assert(Seq::new(n, |l: int| list_of(p.layers[l], 0)) =~= Seq::new(n, |l: int| p.layers[l].gate));
        assert(Seq::new(n, |l: int| list_of(p.layers[l], 1)) =~= Seq::new(n, |l: int| p.layers[l].up));
        assert(Seq::new(n, |l: int| list_of(p.layers[l], 2)) =~= Seq::new(n, |l: int| p.layers[l].down));
        assert(text::texts(r@) =~= cuda_values(
            *cfg,
            batch as int,
            seq as int,
            offsets(probes@),
            cluster.devs(),
            plan@,
            theta@,
            eps@,
            lr@,
        ));
    }
    r
}

fn copied(xs: &[usize]) -> (r: Vec<usize>)
    ensures
        r@ == xs@,
{
    let mut r: Vec<usize> = Vec::new();
    let mut i: usize = 0;
    while i < xs.len()
        invariant
            i <= xs@.len(),
            r@ == xs@.take(i as int),
        decreases xs.len() - i,
    {
        r.push(xs[i]);
        assert(xs@.take(i + 1) =~= xs@.take(i as int).push(xs@[i as int]));
        i = i + 1;
    }
    assert(xs@.take(i as int) =~= xs@);
    r
}

fn keys_of() -> (r: Vec<Vec<char>>)
    ensures
        text::words(r@) == cuda_keys(),
{
    let r: Vec<Vec<char>> = vec![
        text::chars_of("@@PROBES@@"),
        text::chars_of("@@STEPS@@"),
        text::chars_of("@@KINDS@@"),
        text::chars_of("@@ROUTER@@"),
        text::chars_of("@@GATE@@"),
        text::chars_of("@@DOWN@@"),
        text::chars_of("@@VOFF@@"),
        text::chars_of("@@TOPK@@"),
        text::chars_of("@@SCRATCH@@"),
        text::chars_of("@@WINDOW@@"),
        text::chars_of("@@THETA@@"),
        text::chars_of("@@NDEV@@"),
        text::chars_of("@@SEQ@@"),
        text::chars_of("@@EPS@@"),
        text::chars_of("@@KV@@"),
        text::chars_of("@@HD@@"),
        text::chars_of("@@UP@@"),
        text::chars_of("@@LM@@"),
        text::chars_of("@@LR@@"),
        text::chars_of("@@Q@@"),
        text::chars_of("@@K@@"),
        text::chars_of("@@O@@"),
        text::chars_of("@@L@@"),
        text::chars_of("@@H@@"),
        text::chars_of("@@E@@"),
        text::chars_of("@@I@@"),
        text::chars_of("@@D@@"),
        text::chars_of("@@V@@"),
        text::chars_of("@@B@@"),
        text::chars_of("@@P@@"),
    ];
    assert(text::words(r@) =~= cuda_keys());
    r
}

/// CUDA source that executes a staged plan: the template with its places
/// filled. Floating-point literals come as texts.
pub fn lower_plan(
    template: &str,
    cfg: &MixtralConfig,
    batch: usize,
    seq: usize,
    probes: &[usize],
    cluster: &Cluster,
    plan: &StagePlan,
    theta: &str,
    eps: &str,
    lr: &str,
) -> (r: Result<String, EmitError>)
    requires
        cfg.fits(),
    ensures
        ({
            let values = cuda_values(
                *cfg,
                batch as int,
                seq as int,
                offsets(probes@),
                cluster.devs(),
                plan@,
                theta@,
                eps@,
                lr@,
            );
            cuda_source(template@, values) == match r {
                Ok(src) => Ok::<Seq<char>, EmitFault>(src@),
                Err(e) => Err::<Seq<char>, EmitFault>(e@),
            }
        }),
        r matches Ok(src) ==> !text::occurs(src@, "@@"@),
{
    let lay = layout(cfg);
    let values = values_of(cfg, &lay, batch, seq, probes, cluster, plan, theta, eps, lr);
    let keys = keys_of();
    let ghost ks = cuda_keys();
    let ghost vs = text::texts(values@);
    let ghost want = cuda_source(template@, vs);
    proof {
        law_no_place_left(template@, vs);
        assert(ks.len() == vs.len());
    }
    let mut src = String::from_str(template);
    let mut k: usize = 0;
    while k < keys.len()
        invariant
            k <= keys@.len(),
            keys@.len() == values@.len(),
            ks == cuda_keys(),
            ks == text::words(keys@),
            vs == text::texts(values@),
            vs == cuda_values(
                *cfg,
                batch as int,
                seq as int,
                offsets(probes@),
                cluster.devs(),
                plan@,
                theta@,
                eps@,
                lr@,
            ),
            want == cuda_source(template@, vs),
            want == places_filled(src@, ks, vs, k as int),
        decreases keys.len() - k,
    {
        assert(ks[k as int] == keys@[k as int]@);
        assert(vs[k as int] == values@[k as int]@);
        let t = text::chars_of(src.as_str());
        if !text::holds_key(&t, &keys[k]) {
            let key = key_name(k, &keys);
            return Err(EmitError::Missing(key));
        }
        src = text::replace(src.as_str(), &t, &keys[k], values[k].as_str());
        k = k + 1;
    }
    let t = text::chars_of(src.as_str());
    let mark = text::chars_of("@@");
    if text::holds_key(&t, &mark) {
        return Err(EmitError::Unfilled);
    }
    Ok(src)
}

/// The text of a key.
fn key_name(k: usize, keys: &Vec<Vec<char>>) -> (r: String)
    requires
        k < keys@.len(),
        text::words(keys@) == cuda_keys(),
    ensures
        r@ == cuda_keys()[k as int],
{
    let names: Vec<&'static str> = vec![
        "@@PROBES@@",
        "@@STEPS@@",
        "@@KINDS@@",
        "@@ROUTER@@",
        "@@GATE@@",
        "@@DOWN@@",
        "@@VOFF@@",
        "@@TOPK@@",
        "@@SCRATCH@@",
        "@@WINDOW@@",
        "@@THETA@@",
        "@@NDEV@@",
        "@@SEQ@@",
        "@@EPS@@",
        "@@KV@@",
        "@@HD@@",
        "@@UP@@",
        "@@LM@@",
        "@@LR@@",
        "@@Q@@",
        "@@K@@",
        "@@O@@",
        "@@L@@",
        "@@H@@",
        "@@E@@",
        "@@I@@",
        "@@D@@",
        "@@V@@",
        "@@B@@",
        "@@P@@",
    ];
    assert(cuda_keys().len() == names@.len());
    String::from_str(names[k])
}

/// A model, a batch and probes for which there is a program.
pub open spec fn emittable(c: MixtralConfig, batch: int, seq: int, probes: Seq<int>, ds: Seq<Dev>) -> bool {
    &&& c.layers >= 1 && c.experts >= 1 && c.top_k >= 1
    &&& batch >= 1 && seq >= 1
    &&& c.head_dim >= 2 && c.head_dim % 2 == 0
    &&& c.heads >= 1 && c.kv_heads >= 1 && c.heads as int % c.kv_heads as int == 0
    &&& c.vocab >= 1 && c.dim >= 1 && c.intermediate >= 1
    &&& probes.len() > 0
    &&& ds.len() > 0
    &&& forall|i: int| 0 <= i < probes.len() ==> #[trigger] probes[i] < c.total()
}

/// CUDA source that executes the staged schedule for `cluster`. Parameter
/// homes stay on the device the plan chose. Each window runs there, and a
/// GPU window is a real kernel launch plus the transfers of its tile.
pub fn emit_cuda(
    template: &str,
    cfg: &MixtralConfig,
    batch: usize,
    seq: usize,
    probes: &[usize],
    cluster: &Cluster,
    theta: &str,
    eps: &str,
    lr: &str,
) -> (r: Result<String, EmitError>)
    requires
        emittable(*cfg, batch as int, seq as int, offsets(probes@), cluster.devs()),
        crate::schedule::model_stageable(*cfg, batch as int, seq as int, cluster.devs()),
    ensures
        ({
            let want = crate::theory::plans::mixtral_plan(*cfg, batch as int, seq as int, cluster.devs(), cluster.links@);
            let got = match r {
                Ok(src) => Ok::<Seq<char>, EmitFault>(src@),
                Err(e) => Err::<Seq<char>, EmitFault>(e@),
            };
            match want {
                Err(e) => got == Err::<Seq<char>, EmitFault>(EmitFault::Stage { fault: e }),
                Ok(plan) => got == cuda_source(
                    template@,
                    cuda_values(
                        *cfg,
                        batch as int,
                        seq as int,
                        offsets(probes@),
                        cluster.devs(),
                        plan,
                        theta@,
                        eps@,
                        lr@,
                    ),
                ),
            }
        }),
        r matches Ok(src) ==> !text::occurs(src@, "@@"@),
{
    match crate::cluster::compile_mixtral(cfg, batch as u64, seq as u64, cluster) {
        Err(e) => Err(EmitError::Stage(e)),
        Ok(compiled) => lower_plan(template, cfg, batch, seq, probes, cluster, &compiled.plan, theta, eps, lr),
    }
}

} // verus!
