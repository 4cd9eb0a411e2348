//! Feed-forward neural networks over fixed-point weights.
//!
//! A network is a sequence of layers, each a sequence of neurons; a neuron
//! holds a bias and one weight per input.  Propagation applies
//! `relu(bias + sum(input * weight))` layer by layer.  The flat gene
//! sequence — bias then weights, neuron by neuron, layer by layer — is the
//! chromosome the genetic algorithm works on, and it round-trips losslessly
//! through `weights` / `from_weights`.
//!
//! The mathematical model of a network is `NetM`: a sequence of layers of
//! `(bias, weights)` pairs.  Every contract here speaks of that model.

use vstd::prelude::*;
use crate::fixed::SCALE;
use crate::fixed::fx_add;
use crate::fixed::fx_mul;
use crate::fixed::mul_unit;
use crate::fixed::sat_add;
use crate::rng::Prng;
use crate::rng::lcg_iter2;
use crate::rng::lemma_lcg_iter2_add;
use crate::rng::lemma_random_genes_add;
use crate::rng::random_genes;
use crate::rng::signed_unit_at;
use vstd::arithmetic::mul::lemma_mul_inequality;
use vstd::arithmetic::mul::lemma_mul_nonnegative;

verus! {

/// The model of a neuron: its bias and its weights.
pub type NeuronM = (i64, Seq<i64>);

/// The model of a layer.
pub type LayerM = Seq<NeuronM>;

/// The model of a network.
pub type NetM = Seq<LayerM>;

/// Declares how many neurons one layer of a network has.
#[derive(Clone, Copy, Debug, PartialEq, Eq, Structural)]
pub struct LayerTopology {
    pub neurons: usize,
}

/// What can go wrong when shaping or driving a network.
#[derive(Clone, Copy, Debug, PartialEq, Eq, Structural)]
pub enum NetworkError {
    /// The input vector does not match the network's input size.
    ShapeMismatch,
    /// A flat weight sequence ended before the topology was filled.
    InsufficientWeights,
    /// A flat weight sequence had values left over after the topology was
    /// filled.
    ExcessWeights,
}

#[derive(Clone, Debug, PartialEq)]
pub struct Neuron {
    pub bias: i64,
    pub weights: Vec<i64>,
}

#[derive(Clone, Debug, PartialEq)]
pub struct Layer {
    pub neurons: Vec<Neuron>,
}

#[derive(Clone, Debug, PartialEq)]
pub struct Network {
    pub layers: Vec<Layer>,
}

pub open spec fn neuron_m(n: Neuron) -> NeuronM {
    (n.bias, n.weights@)
}

pub open spec fn layer_m(l: Layer) -> LayerM {
    Seq::new(l.neurons@.len(), |i: int| neuron_m(l.neurons@[i]))
}

pub open spec fn net_m(n: Network) -> NetM {
    Seq::new(n.layers@.len(), |i: int| layer_m(n.layers@[i]))
}

/// A layer shaped for `in_size` inputs and `out_size` outputs.
pub open spec fn wf_layer_m(lm: LayerM, in_size: int, out_size: int) -> bool {
    &&& lm.len() == out_size
    &&& forall|j: int| 0 <= j < lm.len() ==> (#[trigger] lm[j]).1.len() == in_size
}

/// A network shaped exactly as a topology declares.
pub open spec fn wf_net_m(nm: NetM, t: Seq<LayerTopology>) -> bool {
    &&& t.len() >= 2
    &&& nm.len() == t.len() - 1
    &&& forall|i: int|
        0 <= i < nm.len() ==> wf_layer_m(#[trigger] nm[i], t[i].neurons as int, t[i + 1].neurons as int)
}

/// The rectified-linear floor: negative sums are cut to zero.
pub open spec fn fx_relu(x: int) -> int {
    if x < 0 {
        0
    } else {
        x
    }
}

/// The saturating left-to-right sum of the first `k` products
/// `inputs[j] * weights[j]`.
pub open spec fn weighted_sum(inputs: Seq<i64>, ws: Seq<i64>, k: int) -> int
    decreases k,
{
    if k <= 0 {
        0
    } else {
        fx_add(weighted_sum(inputs, ws, k - 1), fx_mul(inputs[k - 1] as int, ws[k - 1] as int))
    }
}

/// What one neuron answers: `relu(bias + sum(input * weight))`.
pub open spec fn neuron_out(nm: NeuronM, inputs: Seq<i64>) -> i64 {
    fx_relu(fx_add(nm.0 as int, weighted_sum(inputs, nm.1, nm.1.len() as int))) as i64
}

/// What one layer answers: each neuron applied to the same inputs.
pub open spec fn layer_out(lm: LayerM, inputs: Seq<i64>) -> Seq<i64> {
    Seq::new(lm.len(), |j: int| neuron_out(lm[j], inputs))
}

/// What the layers from index `i` on answer, fed with `inputs`.
pub open spec fn net_out_from(nm: NetM, i: int, inputs: Seq<i64>) -> Seq<i64>
    decreases nm.len() - i,
{
    if i < 0 || i >= nm.len() {
        inputs
    } else {
        net_out_from(nm, i + 1, layer_out(nm[i], inputs))
    }
}

/// Whether every layer from index `i` on matches the width of what it is
/// fed, starting with `len` values.
pub open spec fn accepts_from(nm: NetM, i: int, len: int) -> bool
    decreases nm.len() - i,
{
    if i < 0 || i >= nm.len() {
        true
    } else {
        (forall|j: int| 0 <= j < nm[i].len() ==> (#[trigger] nm[i][j]).1.len() == len)
            && accepts_from(nm, i + 1, nm[i].len() as int)
    }
}

/// The genes of one neuron: bias first, then its weights.
pub open spec fn neuron_genes(nm: NeuronM) -> Seq<i64> {
    seq![nm.0] + nm.1
}

/// The genes of the first `j` neurons of a layer.
pub open spec fn layer_genes_upto(lm: LayerM, j: int) -> Seq<i64>
    decreases j,
{
    if j <= 0 {
        Seq::empty()
    } else {
        layer_genes_upto(lm, j - 1) + neuron_genes(lm[j - 1])
    }
}

pub open spec fn layer_genes(lm: LayerM) -> Seq<i64> {
    layer_genes_upto(lm, lm.len() as int)
}

/// The genes of the first `i` layers of a network.
pub open spec fn net_genes_upto(nm: NetM, i: int) -> Seq<i64>
    decreases i,
{
    if i <= 0 {
        Seq::empty()
    } else {
        net_genes_upto(nm, i - 1) + layer_genes(nm[i - 1])
    }
}

/// The chromosome of a network: every gene in traversal order.
pub open spec fn net_genes(nm: NetM) -> Seq<i64> {
    net_genes_upto(nm, nm.len() as int)
}

/// How many genes the first `i` layer gaps of a topology ask for.
pub open spec fn genes_len_upto(t: Seq<LayerTopology>, i: int) -> int
    decreases i,
{
    if i <= 0 {
        0
    } else {
        genes_len_upto(t, i - 1) + (t[i - 1].neurons + 1) * t[i].neurons
    }
}

/// How many genes a topology asks for in all.
pub open spec fn genes_len(t: Seq<LayerTopology>) -> int {
    genes_len_upto(t, t.len() - 1)
}

/// Gene counts never go down as more layers are counted.
pub proof fn lemma_genes_len_upto_monotonic(t: Seq<LayerTopology>, i: int, j: int)
    requires
        0 <= i <= j < t.len(),
    ensures
        genes_len_upto(t, i) <= genes_len_upto(t, j),
    decreases j - i,
{
    if i < j {
        lemma_genes_len_upto_monotonic(t, i, j - 1);
        lemma_mul_nonnegative(t[j - 1].neurons + 1, t[j].neurons as int);
    }
}

/// A well-formed layer holds `out * (in + 1)` genes in its first `j`
/// neurons' worth, `j * (in + 1)` of them.
pub proof fn lemma_layer_genes_upto_len(lm: LayerM, in_size: int, j: int)
    requires
        0 <= j <= lm.len(),
        forall|k: int| 0 <= k < lm.len() ==> (#[trigger] lm[k]).1.len() == in_size,
    ensures
        layer_genes_upto(lm, j).len() == j * (in_size + 1),
    decreases j,
{
    if j > 0 {
        lemma_layer_genes_upto_len(lm, in_size, j - 1);
        assert(lm[j - 1].1.len() == in_size);
        assert(neuron_genes(lm[j - 1]).len() == in_size + 1);
        assert(layer_genes_upto(lm, j) == layer_genes_upto(lm, j - 1) + neuron_genes(lm[j - 1]));
        assert((j - 1) * (in_size + 1) + (in_size + 1) == j * (in_size + 1)) by (nonlinear_arith);
        assert(layer_genes_upto(lm, j).len() == j * (in_size + 1));
    } else {
        assert(j * (in_size + 1) == 0) by (nonlinear_arith)
            requires
                j == 0,
        ;
    }
}

/// A well-formed network's first `i` layers hold exactly the genes the
/// topology asks of them.
pub proof fn lemma_net_genes_upto_len(nm: NetM, t: Seq<LayerTopology>, i: int)
    requires
        wf_net_m(nm, t),
        0 <= i <= nm.len(),
    ensures
        net_genes_upto(nm, i).len() == genes_len_upto(t, i),
    decreases i,
{
    if i > 0 {
        lemma_net_genes_upto_len(nm, t, i - 1);
        lemma_layer_genes_upto_len(nm[i - 1], t[i - 1].neurons as int, nm[i - 1].len() as int);
        assert((t[i - 1].neurons as int) * ((t[i - 1].neurons as int) + 1) >= 0) by (nonlinear_arith);
        assert((nm[i - 1].len() as int) * ((t[i - 1].neurons as int) + 1) == ((t[i - 1].neurons
            + 1) as int) * (t[i].neurons as int)) by (nonlinear_arith)
            requires
                nm[i - 1].len() == t[i].neurons,
        ;
    }
}

/// The chromosome of a well-formed network is exactly as long as its
/// topology asks.
pub proof fn lemma_net_genes_len(nm: NetM, t: Seq<LayerTopology>)
    requires
        wf_net_m(nm, t),
    ensures
        net_genes(nm).len() == genes_len(t),
{
    lemma_net_genes_upto_len(nm, t, nm.len() as int);
}

impl Neuron {
    /// A neuron drawn from the random source: bias first, then one weight
    /// per input, each uniform in `[-1, 1]`.
    pub fn random(rng: &mut Prng, input_size: usize) -> (r: Neuron)
        requires
            old(rng).wf(),
        ensures
            final(rng).wf(),
            final(rng).state == lcg_iter2(old(rng).state as int, (input_size + 1) as nat),
            r.weights@.len() == input_size,
            neuron_genes(neuron_m(r)) == random_genes(
                old(rng).state as int,
                (input_size + 1) as nat,
            ),
    {
        let ghost s0 = old(rng).state as int;
        let bias = rng.next_signed_unit();
        let mut weights: Vec<i64> = Vec::new();
        proof {
            assert(seq![bias] + weights@ =~= random_genes(s0, 1nat)) by {
                assert(random_genes(s0, 1nat)[0] == signed_unit_at(s0, 0nat) as i64);
            }
        }
        let mut j: usize = 0;
        while j < input_size
            invariant
                rng.wf(),
                j <= input_size,
                weights@.len() == j,
                rng.state == lcg_iter2(s0, (j + 1) as nat),
                seq![bias] + weights@ == random_genes(s0, (j + 1) as nat),
            decreases input_size - j,
        {
            let ghost before = rng.state as int;
            let w = rng.next_signed_unit();
            weights.push(w);
            proof {
                lemma_random_genes_add(s0, (j + 1) as nat, 1nat);
                assert(random_genes(before, 1nat)[0] == signed_unit_at(before, 0nat) as i64);
                assert(random_genes(before, 1nat) =~= seq![w]);
                assert(seq![bias] + weights@ =~= random_genes(s0, (j + 2) as nat));
                lemma_lcg_iter2_add(s0, (j + 1) as nat, 1nat);
            }
            j = j + 1;
        }
        Neuron { bias, weights }
    }

    /// One neuron's answer: `relu(bias + sum(input * weight))`, never
    /// negative.
    pub fn propagate(&self, inputs: &Vec<i64>) -> (r: i64)
        requires
            inputs@.len() == self.weights@.len(),
        ensures
            r == neuron_out(neuron_m(*self), inputs@),
            r >= 0,
    {
        let mut acc: i64 = 0;
        let mut j: usize = 0;
        while j < self.weights.len()
            invariant
                j <= self.weights@.len(),
                inputs@.len() == self.weights@.len(),
                acc == weighted_sum(inputs@, self.weights@, j as int),
            decreases self.weights@.len() - j,
        {
            acc = sat_add(acc, mul_unit(inputs[j], self.weights[j]));
            j = j + 1;
        }
        let v = sat_add(self.bias, acc);
        if v < 0 {
            0
        } else {
            v
        }
    }
}

/// The first `j` draws of a neuron's genes, as the neuron model they build.
impl Layer {
    /// A layer of `output_size` neurons drawn from the random source, in
    /// order.
    pub fn random(rng: &mut Prng, input_size: usize, output_size: usize) -> (r: Layer)
        requires
            old(rng).wf(),
        ensures
            final(rng).wf(),
            final(rng).state == lcg_iter2(
                old(rng).state as int,
                (output_size * (input_size + 1)) as nat,
            ),
            wf_layer_m(layer_m(r), input_size as int, output_size as int),
            layer_genes(layer_m(r)) == random_genes(
                old(rng).state as int,
                (output_size * (input_size + 1)) as nat,
            ),
    {
        let ghost s0 = old(rng).state as int;
        let mut neurons: Vec<Neuron> = Vec::new();
        let mut n: usize = 0;
        proof {
            assert(layer_genes_upto(layer_m(Layer { neurons }), 0) =~= random_genes(s0, 0nat));
        }
        while n < output_size
            invariant
                rng.wf(),
                n <= output_size,
                neurons@.len() == n,
                forall|k: int|
                    0 <= k < neurons@.len() ==> (#[trigger] neurons@[k]).weights@.len()
                        == input_size,
                rng.state == lcg_iter2(s0, (n * (input_size + 1)) as nat),
                layer_genes_upto(layer_m(Layer { neurons }), n as int) == random_genes(
                    s0,
                    (n * (input_size + 1)) as nat,
                ),
            decreases output_size - n,
        {
            proof {
                lemma_mul_nonnegative(n as int, input_size + 1);
                lemma_mul_inequality(n as int, output_size as int, input_size + 1);
            }
            let ghost drawn = (n * (input_size + 1)) as nat;
            let ghost mid = rng.state as int;
            let nr = Neuron::random(rng, input_size);
            let ghost old_neurons = neurons;
            neurons.push(nr);
            proof {
                let lm_old = layer_m(Layer { neurons: old_neurons });
                let lm_new = layer_m(Layer { neurons });
                assert forall|k: int| 0 <= k < n implies lm_new[k] == lm_old[k] by {}
                assert(layer_genes_upto(lm_new, n as int) == layer_genes_upto(lm_old, n as int))
                    by {
                    lemma_layer_genes_upto_same(lm_old, lm_new, n as int);
                }
                assert(lm_new[n as int] == neuron_m(nr));
                lemma_random_genes_add(s0, drawn, (input_size + 1) as nat);
                lemma_lcg_iter2_add(s0, drawn, (input_size + 1) as nat);
                assert((n + 1) * (input_size + 1) == n * (input_size + 1) + (input_size + 1))
                    by (nonlinear_arith);
            }
            n = n + 1;
        }
        Layer { neurons }
    }

    /// One layer's answer: each neuron fed the same inputs, in order.
    pub fn propagate(&self, inputs: &Vec<i64>) -> (r: Vec<i64>)
        requires
            forall|k: int|
                0 <= k < self.neurons@.len() ==> (#[trigger] self.neurons@[k]).weights@.len()
                    == inputs@.len(),
        ensures
            r@ == layer_out(layer_m(*self), inputs@),
    {
        let mut out: Vec<i64> = Vec::new();
        let mut n: usize = 0;
        while n < self.neurons.len()
            invariant
                n <= self.neurons@.len(),
                out@.len() == n,
                forall|k: int|
                    0 <= k < self.neurons@.len() ==> (#[trigger] self.neurons@[k]).weights@.len()
                        == inputs@.len(),
                forall|k: int|
                    0 <= k < n ==> out@[k] == neuron_out(
                        #[trigger] layer_m(*self)[k],
                        inputs@,
                    ),
            decreases self.neurons@.len() - n,
        {
            let v = self.neurons[n].propagate(inputs);
            out.push(v);
            n = n + 1;
        }
        proof {
            assert(out@ =~= layer_out(layer_m(*self), inputs@));
        }
        out
    }
}

impl Neuron {
    /// Reads one neuron from `weights` at `pos`: the bias, then
    /// `input_size` weights.
    pub fn from_weights(weights: &Vec<i64>, pos: usize, input_size: usize) -> (r: Neuron)
        requires
            pos + input_size + 1 <= weights@.len(),
        ensures
            r.weights@.len() == input_size,
            neuron_genes(neuron_m(r)) == weights@.subrange(
                pos as int,
                pos + input_size + 1,
            ),
    {
        let total: usize = weights.len();
        let bias = weights[pos];
        let mut ws: Vec<i64> = Vec::new();
        let mut j: usize = 0;
        while j < input_size
            invariant
                total == weights@.len(),
                pos + input_size + 1 <= total,
                j <= input_size,
                ws@.len() == j,
                forall|k: int| 0 <= k < j ==> ws@[k] == weights@[pos + 1 + k],
            decreases input_size - j,
        {
            ws.push(weights[pos + 1 + j]);
            j = j + 1;
        }
        let r = Neuron { bias, weights: ws };
        proof {
            assert(neuron_genes(neuron_m(r)) =~= weights@.subrange(
                pos as int,
                pos + input_size + 1,
            ));
        }
        r
    }
}

impl Layer {
    /// Reads one layer of `output_size` neurons from `weights` at `pos`.
    pub fn from_weights(
        weights: &Vec<i64>,
        pos: usize,
        input_size: usize,
        output_size: usize,
    ) -> (r: Layer)
        requires
            pos + output_size * (input_size + 1) <= weights@.len(),
        ensures
            wf_layer_m(layer_m(r), input_size as int, output_size as int),
            layer_genes(layer_m(r)) == weights@.subrange(
                pos as int,
                pos + output_size * (input_size + 1),
            ),
    {
        let total: usize = weights.len();
        let mut neurons: Vec<Neuron> = Vec::new();
        let mut cursor: usize = pos;
        let mut n: usize = 0;
        proof {
            lemma_mul_nonnegative(output_size as int, input_size + 1);
        }
        while n < output_size
            invariant
                total == weights@.len(),
                pos + output_size * (input_size + 1) <= total,
                n <= output_size,
                neurons@.len() == n,
                cursor == pos + n * (input_size + 1),
                forall|k: int|
                    0 <= k < neurons@.len() ==> (#[trigger] neurons@[k]).weights@.len()
                        == input_size,
                layer_genes_upto(layer_m(Layer { neurons }), n as int) == weights@.subrange(
                    pos as int,
                    cursor as int,
                ),
            decreases output_size - n,
        {
            proof {
                lemma_mul_nonnegative(n as int, input_size + 1);
                lemma_mul_inequality(n + 1, output_size as int, input_size + 1);
                assert((n + 1) * (input_size + 1) == n * (input_size + 1) + (input_size + 1))
                    by (nonlinear_arith);
            }
            let nr = Neuron::from_weights(weights, cursor, input_size);
            let ghost old_neurons = neurons;
            neurons.push(nr);
            proof {
                let lm_old = layer_m(Layer { neurons: old_neurons });
                let lm_new = layer_m(Layer { neurons });
                lemma_layer_genes_upto_same(lm_old, lm_new, n as int);
                assert(lm_new[n as int] == neuron_m(nr));
                assert(weights@.subrange(pos as int, cursor as int) + weights@.subrange(
                    cursor as int,
                    cursor + input_size + 1,
                ) =~= weights@.subrange(pos as int, cursor + input_size + 1));
            }
            cursor = cursor + input_size + 1;
            n = n + 1;
        }
        Layer { neurons }
    }
}

/// Two network models that agree on their first `i` layers have the same
/// first `i` layers' genes.
proof fn lemma_net_genes_upto_same(a: NetM, b: NetM, i: int)
    requires
        0 <= i,
        i <= a.len(),
        i <= b.len(),
        forall|k: int| 0 <= k < i ==> a[k] == b[k],
    ensures
        net_genes_upto(a, i) == net_genes_upto(b, i),
    decreases i,
{
    if i > 0 {
        lemma_net_genes_upto_same(a, b, i - 1);
    }
}

impl Network {
    /// A network drawn from the random source: every gene in traversal
    /// order, each uniform in `[-1, 1]`.
    pub fn random(rng: &mut Prng, layers: &Vec<LayerTopology>) -> (r: Network)
        requires
            old(rng).wf(),
            layers@.len() >= 2,
        ensures
            final(rng).wf(),
            final(rng).state == lcg_iter2(old(rng).state as int, genes_len(layers@) as nat),
            wf_net_m(net_m(r), layers@),
            net_genes(net_m(r)) == random_genes(
                old(rng).state as int,
                genes_len(layers@) as nat,
            ),
    {
        let ghost s0 = old(rng).state as int;
        let ghost t = layers@;
        let mut lv: Vec<Layer> = Vec::new();
        let mut i: usize = 0;
        while i < layers.len() - 1
            invariant
                rng.wf(),
                layers@ == t,
                t.len() >= 2,
                i <= t.len() - 1,
                lv@.len() == i,
                forall|k: int|
                    0 <= k < i ==> wf_layer_m(
                        #[trigger] layer_m(lv@[k]),
                        t[k].neurons as int,
                        t[k + 1].neurons as int,
                    ),
                genes_len_upto(t, i as int) >= 0,
                rng.state == lcg_iter2(s0, genes_len_upto(t, i as int) as nat),
                net_genes_upto(net_m(Network { layers: lv }), i as int) == random_genes(
                    s0,
                    genes_len_upto(t, i as int) as nat,
                ),
            decreases t.len() - 1 - i,
        {
            let ghost drawn = genes_len_upto(t, i as int) as nat;
            let layer = Layer::random(rng, layers[i].neurons, layers[i + 1].neurons);
            let ghost old_lv = lv;
            lv.push(layer);
            proof {
                let a = t[i as int].neurons + 1;
                let b = t[i as int + 1].neurons as int;
                let per = a * b;
                lemma_mul_nonnegative(a, b);
                assert(b * a == a * b) by (nonlinear_arith);
                let nm_old = net_m(Network { layers: old_lv });
                let nm_new = net_m(Network { layers: lv });
                lemma_net_genes_upto_same(nm_old, nm_new, i as int);
                assert(nm_new[i as int] == layer_m(layer));
                lemma_random_genes_add(s0, drawn, per as nat);
                lemma_lcg_iter2_add(s0, drawn, per as nat);
            }
            i = i + 1;
        }
        Network { layers: lv }
    }

    /// The network's answer to an input vector, layer by layer; fails with
    /// `ShapeMismatch` exactly when some layer does not fit what it is fed.
    /// What comes out of the final layer is never negative.
    pub fn propagate(&self, inputs: Vec<i64>) -> (r: Result<Vec<i64>, NetworkError>)
        ensures
            match r {
                Ok(out) => {
                    &&& accepts_from(net_m(*self), 0, inputs@.len() as int)
                    &&& out@ == net_out_from(net_m(*self), 0, inputs@)
                    &&& self.layers@.len() > 0 ==> forall|j: int|
                        0 <= j < out@.len() ==> #[trigger] out@[j] >= 0
                },
                Err(e) => {
                    &&& !accepts_from(net_m(*self), 0, inputs@.len() as int)
                    &&& e == NetworkError::ShapeMismatch
                },
            },
    {
        let ghost nm = net_m(*self);
        let ghost in0 = inputs@;
        let mut current = inputs;
        let mut i: usize = 0;
        while i < self.layers.len()
            invariant
                nm == net_m(*self),
                in0 == inputs@,
                i <= self.layers@.len(),
                accepts_from(nm, 0, in0.len() as int) <==> accepts_from(
                    nm,
                    i as int,
                    current@.len() as int,
                ),
                accepts_from(nm, 0, in0.len() as int) ==> net_out_from(nm, i as int, current@)
                    == net_out_from(nm, 0, in0),
            decreases self.layers@.len() - i,
        {
            let layer = &self.layers[i];
            let mut j: usize = 0;
            while j < layer.neurons.len()
                invariant
                    nm == net_m(*self),
                    in0 == inputs@,
                    i < self.layers@.len(),
                    layer == &self.layers@[i as int],
                    j <= layer.neurons@.len(),
                    accepts_from(nm, 0, in0.len() as int) <==> accepts_from(
                        nm,
                        i as int,
                        current@.len() as int,
                    ),
                    forall|k: int|
                        0 <= k < j ==> (#[trigger] layer.neurons@[k]).weights@.len()
                            == current@.len(),
                decreases layer.neurons@.len() - j,
            {
                if layer.neurons[j].weights.len() != current.len() {
                    proof {
                        assert(nm[i as int][j as int].1.len() != current@.len());
                        assert(!accepts_from(nm, i as int, current@.len() as int));
                    }
                    return Err(NetworkError::ShapeMismatch);
                }
                j = j + 1;
            }
            proof {
                assert(forall|k: int|
                    0 <= k < nm[i as int].len() ==> (#[trigger] nm[i as int][k]).1.len()
                        == current@.len());
            }
            let next = self.layers[i].propagate(&current);
            proof {
                assert(accepts_from(nm, i as int, current@.len() as int) <==> accepts_from(
                    nm,
                    i as int + 1,
                    next@.len() as int,
                ));
                assert(net_out_from(nm, i as int, current@) == net_out_from(
                    nm,
                    i as int + 1,
                    next@,
                ));
            }
            current = next;
            i = i + 1;
        }
        proof {
            if self.layers@.len() > 0 {
                lemma_net_out_nonneg(nm, 0, in0);
            }
        }
        Ok(current)
    }

    /// The chromosome: every gene of the network in traversal order —
    /// bias then weights, neuron by neuron, layer by layer.
    pub fn weights(&self) -> (r: Vec<i64>)
        ensures
            r@ == net_genes(net_m(*self)),
    {
        let ghost nm = net_m(*self);
        let mut out: Vec<i64> = Vec::new();
        let mut i: usize = 0;
        while i < self.layers.len()
            invariant
                nm == net_m(*self),
                i <= self.layers@.len(),
                out@ == net_genes_upto(nm, i as int),
            decreases self.layers@.len() - i,
        {
            let layer = &self.layers[i];
            let mut j: usize = 0;
            while j < layer.neurons.len()
                invariant
                    nm == net_m(*self),
                    i < self.layers@.len(),
                    layer == &self.layers@[i as int],
                    j <= layer.neurons@.len(),
                    out@ == net_genes_upto(nm, i as int) + layer_genes_upto(
                        layer_m(self.layers@[i as int]),
                        j as int,
                    ),
                decreases layer.neurons@.len() - j,
            {
                let neuron = &layer.neurons[j];
                out.push(neuron.bias);
                let mut k: usize = 0;
                while k < neuron.weights.len()
                    invariant
                        nm == net_m(*self),
                        i < self.layers@.len(),
                        layer == &self.layers@[i as int],
                        j < layer.neurons@.len(),
                        neuron == &layer.neurons@[j as int],
                        k <= neuron.weights@.len(),
                        out@ == net_genes_upto(nm, i as int) + layer_genes_upto(
                            layer_m(self.layers@[i as int]),
                            j as int,
                        ) + seq![neuron.bias] + neuron.weights@.subrange(0, k as int),
                    decreases neuron.weights@.len() - k,
                {
                    out.push(neuron.weights[k]);
                    proof {
                        assert(neuron.weights@.subrange(0, k as int) + seq![
                            neuron.weights@[k as int],
                        ] =~= neuron.weights@.subrange(0, k + 1));
                        assert(out@ =~= net_genes_upto(nm, i as int) + layer_genes_upto(
                            layer_m(self.layers@[i as int]),
                            j as int,
                        ) + seq![neuron.bias] + neuron.weights@.subrange(0, k + 1));
                    }
                    k = k + 1;
                }
                proof {
                    let lm = layer_m(self.layers@[i as int]);
                    assert(neuron.weights@.subrange(0, neuron.weights@.len() as int) =~= neuron
                        .weights@);
                    assert(lm[j as int] == neuron_m(*neuron));
                    assert(layer_genes_upto(lm, j as int) + neuron_genes(lm[j as int]) =~= (
                    layer_genes_upto(lm, j as int) + seq![neuron.bias]) + neuron.weights@);
                    assert(out@ =~= net_genes_upto(nm, i as int) + layer_genes_upto(
                        lm,
                        j as int + 1,
                    ));
                }
                j = j + 1;
            }
            proof {
                assert(nm[i as int] == layer_m(self.layers@[i as int]));
                assert(out@ =~= net_genes_upto(nm, i as int + 1));
            }
            i = i + 1;
        }
        proof {
            assert(out@ =~= net_genes(nm));
        }
        out
    }

    /// Rebuilds a network from a flat weight sequence, consuming it in
    /// traversal order; fails with `InsufficientWeights` when the sequence
    /// is too short for the topology and with `ExcessWeights` when values
    /// are left over — never silently.
    pub fn from_weights(layers: &Vec<LayerTopology>, weights: &Vec<i64>) -> (r: Result<
        Network,
        NetworkError,
    >)
        requires
            layers@.len() >= 2,
        ensures
            match r {
                Ok(net) => {
                    &&& weights@.len() == genes_len(layers@)
                    &&& wf_net_m(net_m(net), layers@)
                    &&& net_genes(net_m(net)) == weights@
                },
                Err(e) => {
                    &&& (e == NetworkError::InsufficientWeights <==> weights@.len() < genes_len(
                        layers@,
                    ))
                    &&& (e == NetworkError::ExcessWeights <==> weights@.len() > genes_len(layers@))
                    &&& e != NetworkError::ShapeMismatch
                },
            },
    {
        let ghost t = layers@;
        let total: usize = weights.len();
        let mut acc: u128 = 0;
        let mut i: usize = 0;
        while i < layers.len() - 1
            invariant
                layers@ == t,
                total == weights@.len(),
                t.len() >= 2,
                i <= t.len() - 1,
                acc == genes_len_upto(t, i as int),
                acc <= total,
            decreases t.len() - 1 - i,
        {
            let a = layers[i].neurons as u128;
            let b = layers[i + 1].neurons as u128;
            proof {
                assert((a as int + 1) * (b as int) <= 0x10000000000000000
                    * 0xffffffffffffffff) by (nonlinear_arith)
                    requires
                        a <= 0xffffffffffffffff,
                        b <= 0xffffffffffffffff,
                ;
                lemma_mul_nonnegative(a as int + 1, b as int);
            }
            let per = (a + 1) * b;
            proof {
                assert(per == (t[i as int].neurons + 1) * (t[i as int + 1].neurons as int));
            }
            acc = acc + per;
            if acc > total as u128 {
                proof {
                    lemma_genes_len_upto_monotonic(t, i as int + 1, t.len() as int - 1);
                }
                return Err(NetworkError::InsufficientWeights);
            }
            i = i + 1;
        }
        if acc < total as u128 {
            return Err(NetworkError::ExcessWeights);
        }
        let mut lv: Vec<Layer> = Vec::new();
        let mut cursor: usize = 0;
        let mut i2: usize = 0;
        while i2 < layers.len() - 1
            invariant
                layers@ == t,
                total == weights@.len(),
                t.len() >= 2,
                i2 <= t.len() - 1,
                lv@.len() == i2,
                genes_len(t) == total,
                cursor == genes_len_upto(t, i2 as int),
                cursor <= total,
                forall|k: int|
                    0 <= k < i2 ==> wf_layer_m(
                        #[trigger] layer_m(lv@[k]),
                        t[k].neurons as int,
                        t[k + 1].neurons as int,
                    ),
                net_genes_upto(net_m(Network { layers: lv }), i2 as int) == weights@.subrange(
                    0,
                    cursor as int,
                ),
            decreases t.len() - 1 - i2,
        {
            let in_size = layers[i2].neurons;
            let out_size = layers[i2 + 1].neurons;
            proof {
                lemma_genes_len_upto_monotonic(t, i2 as int + 1, t.len() as int - 1);
                assert(genes_len_upto(t, i2 as int + 1) == genes_len_upto(t, i2 as int) + (
                in_size + 1) * (out_size as int));
                assert((out_size as int) * (in_size as int + 1) == (in_size as int + 1) * (
                out_size as int)) by (nonlinear_arith);
                lemma_mul_nonnegative(in_size as int + 1, out_size as int);
                assert(cursor + (in_size + 1) * (out_size as int) <= total);
            }
            let per: usize = if out_size == 0 {
                proof {
                    assert((in_size + 1) * (out_size as int) == 0) by (nonlinear_arith)
                        requires
                            out_size == 0,
                    ;
                }
                0
            } else {
                proof {
                    lemma_mul_inequality(1, out_size as int, in_size as int + 1);
                    assert(1 * (in_size as int + 1) == in_size as int + 1);
                    assert((out_size as int) * (in_size as int + 1) == (in_size as int + 1) * (
                    out_size as int)) by (nonlinear_arith);
                }
                (in_size + 1) * out_size
            };
            proof {
                assert(per == (in_size + 1) * (out_size as int));
            }
            let layer = Layer::from_weights(weights, cursor, in_size, out_size);
            let ghost old_lv = lv;
            lv.push(layer);
            proof {
                let nm_old = net_m(Network { layers: old_lv });
                let nm_new = net_m(Network { layers: lv });
                lemma_net_genes_upto_same(nm_old, nm_new, i2 as int);
                assert(nm_new[i2 as int] == layer_m(layer));
                assert(weights@.subrange(0, cursor as int) + weights@.subrange(
                    cursor as int,
                    cursor + per,
                ) =~= weights@.subrange(0, cursor + per));
            }
            cursor = cursor + per;
            i2 = i2 + 1;
        }
        let net = Network { layers: lv };
        proof {
            assert(net_genes(net_m(net)) =~= weights@);
        }
        Ok(net)
    }
}

/// From the first layer on, everything a network answers has already been
/// through a rectified-linear floor: no output is negative.
pub proof fn lemma_net_out_nonneg(nm: NetM, i: int, inputs: Seq<i64>)
    requires
        0 <= i < nm.len(),
    ensures
        forall|j: int|
            0 <= j < net_out_from(nm, i, inputs).len() ==> #[trigger] net_out_from(
                nm,
                i,
                inputs,
            )[j] >= 0,
    decreases nm.len() - i,
{
    let lo = layer_out(nm[i], inputs);
    assert(net_out_from(nm, i, inputs) == net_out_from(nm, i + 1, lo));
    if i + 1 < nm.len() {
        lemma_net_out_nonneg(nm, i + 1, lo);
        assert forall|j: int|
            0 <= j < net_out_from(nm, i, inputs).len() implies net_out_from(nm, i, inputs)[j]
            >= 0 by {
            assert(net_out_from(nm, i + 1, lo)[j] >= 0);
        }
    } else {
        assert(net_out_from(nm, i + 1, lo) == lo);
        assert forall|j: int|
            0 <= j < net_out_from(nm, i, inputs).len() implies net_out_from(nm, i, inputs)[j]
            >= 0 by {
            assert(lo[j] == neuron_out(nm[i][j], inputs));
            let v = fx_add(
                nm[i][j].0 as int,
                weighted_sum(inputs, nm[i][j].1, nm[i][j].1.len() as int),
            );
            assert(fx_relu(v) >= 0);
            assert(fx_relu(v) <= i64::MAX as int);
        }
    }
}

/// Equal gene prefixes pin down the first `j` neurons of two layers of the
/// same input size.
proof fn lemma_layer_genes_prefix_determine(a: LayerM, b: LayerM, in_size: int, j: int)
    requires
        0 <= j <= a.len(),
        j <= b.len(),
        forall|k: int| 0 <= k < a.len() ==> (#[trigger] a[k]).1.len() == in_size,
        forall|k: int| 0 <= k < b.len() ==> (#[trigger] b[k]).1.len() == in_size,
        layer_genes_upto(a, j) == layer_genes_upto(b, j),
    ensures
        forall|k: int| 0 <= k < j ==> a[k] == b[k],
    decreases j,
{
    if j > 0 {
        lemma_layer_genes_upto_len(a, in_size, j - 1);
        lemma_layer_genes_upto_len(b, in_size, j - 1);
        let ll = (j - 1) * (in_size + 1);
        assert(a[j - 1].1.len() == in_size);
        lemma_mul_nonnegative(j - 1, in_size + 1);
        assert(layer_genes_upto(a, j - 1) =~= layer_genes_upto(a, j).subrange(0, ll));
        assert(layer_genes_upto(b, j - 1) =~= layer_genes_upto(b, j).subrange(0, ll));
        lemma_layer_genes_prefix_determine(a, b, in_size, j - 1);
        assert(neuron_genes(a[j - 1]) =~= layer_genes_upto(a, j).subrange(
            ll,
            ll + in_size + 1,
        ));
        assert(neuron_genes(b[j - 1]) =~= layer_genes_upto(b, j).subrange(
            ll,
            ll + in_size + 1,
        ));
        assert(a[j - 1].0 == neuron_genes(a[j - 1])[0]);
        assert(a[j - 1].1 =~= neuron_genes(a[j - 1]).subrange(1, in_size + 1));
        assert(b[j - 1].1 =~= neuron_genes(b[j - 1]).subrange(1, in_size + 1));
        assert(a[j - 1] == b[j - 1]);
    }
}

/// Equal gene prefixes pin down the first `i` layers of two networks of
/// the same topology.
proof fn lemma_net_genes_prefix_determine(a: NetM, b: NetM, t: Seq<LayerTopology>, i: int)
    requires
        wf_net_m(a, t),
        wf_net_m(b, t),
        0 <= i <= a.len(),
        net_genes_upto(a, i) == net_genes_upto(b, i),
    ensures
        forall|k: int| 0 <= k < i ==> a[k] == b[k],
    decreases i,
{
    if i > 0 {
        lemma_net_genes_upto_len(a, t, i - 1);
        lemma_net_genes_upto_len(b, t, i - 1);
        lemma_genes_len_upto_monotonic(t, 0, i - 1);
        let ll = genes_len_upto(t, i - 1);
        assert(net_genes_upto(a, i - 1) =~= net_genes_upto(a, i).subrange(0, ll));
        assert(net_genes_upto(b, i - 1) =~= net_genes_upto(b, i).subrange(0, ll));
        lemma_net_genes_prefix_determine(a, b, t, i - 1);
        let ta = net_genes_upto(a, i).len() as int;
        assert(layer_genes(a[i - 1]) =~= net_genes_upto(a, i).subrange(ll, ta));
        assert(layer_genes(b[i - 1]) =~= net_genes_upto(b, i).subrange(ll, ta));
        lemma_layer_genes_prefix_determine(
            a[i - 1],
            b[i - 1],
            t[i - 1].neurons as int,
            a[i - 1].len() as int,
        );
        assert(a[i - 1] =~= b[i - 1]);
    }
}

/// The chromosome determines the network: two well-formed networks of the
/// same topology with equal gene sequences are the same model.
pub proof fn lemma_genes_determine_network(a: NetM, b: NetM, t: Seq<LayerTopology>)
    requires
        wf_net_m(a, t),
        wf_net_m(b, t),
        net_genes(a) == net_genes(b),
    ensures
        a == b,
{
    lemma_net_genes_prefix_determine(a, b, t, a.len() as int);
    assert(a =~= b);
}

/// A network shaped as its topology declares accepts inputs of the
/// topology's width at every layer from `i` on.
pub proof fn lemma_wf_accepts(nm: NetM, t: Seq<LayerTopology>, i: int)
    requires
        wf_net_m(nm, t),
        0 <= i <= nm.len(),
    ensures
        accepts_from(nm, i, t[i].neurons as int),
    decreases nm.len() - i,
{
    if i < nm.len() {
        lemma_wf_accepts(nm, t, i + 1);
    }
}

/// What a well-formed network answers is as wide as its last layer.
pub proof fn lemma_net_out_len(nm: NetM, t: Seq<LayerTopology>, i: int, inputs: Seq<i64>)
    requires
        wf_net_m(nm, t),
        0 <= i < nm.len(),
    ensures
        net_out_from(nm, i, inputs).len() == t[t.len() - 1].neurons,
    decreases nm.len() - i,
{
    if i + 1 < nm.len() {
        lemma_net_out_len(nm, t, i + 1, layer_out(nm[i], inputs));
    } else {
        assert(net_out_from(nm, i + 1, layer_out(nm[i], inputs)) == layer_out(nm[i], inputs));
    }
}

/// The round-trip law: a well-formed network rebuilt from another's
/// chromosome answers every input exactly as the original.  Together with
/// the contracts of `weights` and `from_weights` this says that
/// `from_weights(t, net.weights())` yields a network whose `propagate`
/// agrees with `net` on every input.
pub proof fn lemma_chromosome_round_trip(
    a: NetM,
    b: NetM,
    t: Seq<LayerTopology>,
    inputs: Seq<i64>,
)
    requires
        wf_net_m(a, t),
        wf_net_m(b, t),
        net_genes(a) == net_genes(b),
    ensures
        net_out_from(a, 0, inputs) == net_out_from(b, 0, inputs),
{
    lemma_genes_determine_network(a, b, t);
}

/// Two layer models that agree on their first `j` neurons have the same
/// first `j` neurons' genes.
proof fn lemma_layer_genes_upto_same(a: LayerM, b: LayerM, j: int)
    requires
        0 <= j,
        j <= a.len(),
        j <= b.len(),
        forall|k: int| 0 <= k < j ==> a[k] == b[k],
    ensures
        layer_genes_upto(a, j) == layer_genes_upto(b, j),
    decreases j,
{
    if j > 0 {
        lemma_layer_genes_upto_same(a, b, j - 1);
    }
}

} // verus!
