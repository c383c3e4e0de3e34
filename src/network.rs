//! Operator table, units ("neurons"), layers and networks.
use crate::random::{random_bool, random_code};
use vstd::arithmetic::div_mod::{lemma_fundamental_div_mod, lemma_mod_pos_bound};
use vstd::prelude::*;

verus! {

// ---------------------------------------------------------------------------
// Operator table
// ---------------------------------------------------------------------------

/// The two-input boolean function with the given code. Codes `0..16` select
/// one of the sixteen functions by their truth table: bit 0 of the code gives
/// the result on `(true, true)`, bit 1 on `(true, false)`, bit 2 on
/// `(false, true)` and bit 3 on `(false, false)`. Any larger code is the
/// constant `true`.
pub open spec fn truth_table(left: bool, right: bool, code: u8) -> bool {
    if code >= 16 {
        true
    } else if left && right {
        code % 2 == 1
    } else if left {
        (code / 2) % 2 == 1
    } else if right {
        (code / 4) % 2 == 1
    } else {
        (code / 8) % 2 == 1
    }
}

/// Computes the boolean function with code `combinator` on two operands.
pub fn compute_boolean(left: bool, right: bool, combinator: u8) -> (r: bool)
    ensures
        r == truth_table(left, right, combinator),
{
    match combinator {
        0 => false,
        1 => left && right,
        2 => left && !right,
        3 => left,
        4 => !left && right,
        5 => right,
        6 => (left && !right) || (!left && right),
        7 => left || right,
        8 => !(left || right),
        9 => (left && right) || (!left && !right),
        10 => !right,
        11 => left || !right,
        12 => !left,
        13 => !left || right,
        14 => !(left && right),
        _ => true,
    }
}

/// Each of the sixteen codes is the two-input function the table names,
/// and every code from 16 up is the constant `true`.
pub proof fn lemma_operator_table(left: bool, right: bool)
    ensures
        truth_table(left, right, 0) == false,
        truth_table(left, right, 1) == (left && right),
        truth_table(left, right, 2) == (left && !right),
        truth_table(left, right, 3) == left,
        truth_table(left, right, 4) == (!left && right),
        truth_table(left, right, 5) == right,
        truth_table(left, right, 6) == (left != right),
        truth_table(left, right, 7) == (left || right),
        truth_table(left, right, 8) == !(left || right),
        truth_table(left, right, 9) == (left == right),
        truth_table(left, right, 10) == !right,
        truth_table(left, right, 11) == (left || !right),
        truth_table(left, right, 12) == !left,
        truth_table(left, right, 13) == (!left || right),
        truth_table(left, right, 14) == !(left && right),
        truth_table(left, right, 15) == true,
        forall|code: u8| code >= 16 ==> #[trigger] truth_table(left, right, code),
{
}

/// Code 6 is exclusive or and code 9 its negation, equality.
pub proof fn lemma_xor_xnor(a: bool, b: bool)
    ensures
        truth_table(a, b, 6) == (a != b),
        truth_table(a, b, 9) == (a == b),
{
}

// ---------------------------------------------------------------------------
// The fold
// ---------------------------------------------------------------------------

/// Right-associative fold of `input[i..]`: the operator `codes[i]` combines
/// `input[i]` with the fold of everything to its right; the last two inputs
/// are combined directly.
pub open spec fn fold_from(input: Seq<bool>, codes: Seq<u8>, i: int) -> bool
    recommends
        0 <= i,
        i + 2 <= input.len(),
        input.len() <= codes.len() + 1,
    decreases input.len() - i,
{
    if i + 2 >= input.len() {
        truth_table(input[i], input[i + 1], codes[i])
    } else {
        truth_table(input[i], fold_from(input, codes, i + 1), codes[i])
    }
}

/// The fold of a whole input vector.
pub open spec fn fold(input: Seq<bool>, codes: Seq<u8>) -> bool {
    fold_from(input, codes, 0)
}

/// On exactly two inputs the fold is the first operator applied to them.
pub proof fn lemma_fold_two(input: Seq<bool>, codes: Seq<u8>)
    requires
        input.len() == 2,
        codes.len() >= 1,
    ensures
        fold(input, codes) == truth_table(input[0], input[1], codes[0]),
{
}

/// Folds `input` through `codes`, walking from the tail to the head.
fn fold_combinators(input: &Vec<bool>, codes: &Vec<u8>) -> (r: bool)
    requires
        input.len() >= 2,
        input.len() <= codes.len() + 1,
    ensures
        r == fold(input@, codes@),
{
    let n = input.len();
    let mut i: usize = n - 2;
    let mut acc = compute_boolean(input[i], input[i + 1], codes[i]);
    while i > 0
        invariant
            n == input.len(),
            n >= 2,
            n <= codes.len() + 1,
            i + 2 <= n,
            acc == fold_from(input@, codes@, i as int),
        decreases i,
    {
        i = i - 1;
        acc = compute_boolean(input[i], acc, codes[i]);
    }
    acc
}

/// Folds the vector `[left] ++ remaining` through `combinators`.
pub fn zip_combinator(left: bool, remaining: Vec<bool>, combinators: &Vec<u8>) -> (r: bool)
    requires
        remaining.len() >= 1,
        remaining.len() <= combinators.len(),
    ensures
        r == fold(seq![left] + remaining@, combinators@),
{
    let mut all: Vec<bool> = Vec::new();
    all.push(left);
    let mut k: usize = 0;
    while k < remaining.len()
        invariant
            k <= remaining.len(),
            all@ == seq![left] + remaining@.subrange(0, k as int),
        decreases remaining.len() - k,
    {
        all.push(remaining[k]);
        k = k + 1;
        proof {
            assert(all@ =~= seq![left] + remaining@.subrange(0, k as int));
        }
    }
    proof {
        assert(remaining@.subrange(0, k as int) =~= remaining@);
    }
    fold_combinators(&all, combinators)
}

// ---------------------------------------------------------------------------
// Models
// ---------------------------------------------------------------------------

/// What a unit is, mathematically.
pub ghost struct NeuronModel {
    pub bias: bool,
    pub input_combinators: Seq<u8>,
    pub result_combinator: u8,
}

/// What a layer is: its declared input length and its units, in order.
pub ghost struct LayerModel {
    pub input_len: nat,
    pub neurons: Seq<NeuronModel>,
}

/// What a network is: its declared input length and its layers, in order.
pub ghost struct NetworkModel {
    pub input_len: nat,
    pub layers: Seq<LayerModel>,
}

/// Errors of evaluation.
#[derive(Clone, Copy, Debug, PartialEq, Eq, Structural)]
pub enum NetworkError {
    /// The input vector's length differs from the declared input length.
    DimensionMismatch,
    /// A unit would receive fewer than two input bits.
    InvalidInputLength,
}

/// Number of operators a unit of input length `n` needs: one per adjacent pair.
pub open spec fn combinator_count(n: nat) -> nat {
    if n == 0 {
        0
    } else {
        (n - 1) as nat
    }
}

/// The output of a unit on `input`: the fold, then the bias mixed in.
pub open spec fn neuron_eval(n: NeuronModel, input: Seq<bool>) -> bool {
    truth_table(fold(input, n.input_combinators), n.bias, n.result_combinator)
}

/// The output of a layer on `input`.
pub open spec fn layer_eval(l: LayerModel, input: Seq<bool>) -> Result<Seq<bool>, NetworkError> {
    if input.len() != l.input_len {
        Err(NetworkError::DimensionMismatch)
    } else if l.neurons.len() > 0 && input.len() < 2 {
        Err(NetworkError::InvalidInputLength)
    } else {
        Ok(Seq::new(l.neurons.len(), |k: int| neuron_eval(l.neurons[k], input)))
    }
}

/// The result of running `input` through the first `count` layers.
pub open spec fn run_layers(layers: Seq<LayerModel>, input: Seq<bool>, count: nat) -> Result<
    Seq<bool>,
    NetworkError,
>
    decreases count,
{
    if count == 0 {
        Ok(input)
    } else {
        match run_layers(layers, input, (count - 1) as nat) {
            Ok(v) => layer_eval(layers[count - 1], v),
            Err(e) => Err(e),
        }
    }
}

/// Once a run has failed, running further layers keeps the same error.
proof fn lemma_run_layers_error_stays(
    layers: Seq<LayerModel>,
    input: Seq<bool>,
    a: nat,
    b: nat,
    e: NetworkError,
)
    requires
        a <= b,
        run_layers(layers, input, a) == Err::<Seq<bool>, NetworkError>(e),
    ensures
        run_layers(layers, input, b) == Err::<Seq<bool>, NetworkError>(e),
    decreases b - a,
{
    if a < b {
        lemma_run_layers_error_stays(layers, input, a, (b - 1) as nat, e);
    }
}

/// A successful run through `count` layers ends with as many bits as the last
/// of them has units, or with the input itself when `count` is zero.
proof fn lemma_run_layers_length(layers: Seq<LayerModel>, input: Seq<bool>, count: nat)
    requires
        run_layers(layers, input, count) is Ok,
    ensures
        run_layers(layers, input, count)->Ok_0.len() == if count == 0 {
            input.len()
        } else {
            layers[count - 1].neurons.len()
        },
    decreases count,
{
    if count > 0 {
        lemma_run_layers_length(layers, input, (count - 1) as nat);
    }
}

/// A successful evaluation yields one bit per unit of the last layer, or the
/// input unchanged when the network has no layers.
pub proof fn lemma_network_output_length(net: NetworkModel, input: Seq<bool>)
    requires
        network_eval(net, input) is Ok,
    ensures
        network_eval(net, input)->Ok_0.len() == if net.layers.len() == 0 {
            input.len()
        } else {
            net.layers.last().neurons.len()
        },
        net.layers.len() == 0 ==> network_eval(net, input)->Ok_0 == input,
{
    lemma_run_layers_length(net.layers, input, net.layers.len());
}

/// The output of a network on `input`.
pub open spec fn network_eval(net: NetworkModel, input: Seq<bool>) -> Result<
    Seq<bool>,
    NetworkError,
> {
    if input.len() != net.input_len {
        Err(NetworkError::DimensionMismatch)
    } else {
        run_layers(net.layers, input, net.layers.len())
    }
}

/// Every unit of the layer has one operator per adjacent pair of its input.
pub open spec fn layer_well_formed(l: LayerModel) -> bool {
    forall|k: int|
        0 <= k < l.neurons.len() ==> #[trigger] l.neurons[k].input_combinators.len()
            == combinator_count(l.input_len)
}

/// Every layer is well formed, the first takes the network's input and each
/// further one takes as many bits as the layer before has units.
pub open spec fn network_well_formed(net: NetworkModel) -> bool {
    &&& forall|i: int| 0 <= i < net.layers.len() ==> layer_well_formed(#[trigger] net.layers[i])
    &&& net.layers.len() > 0 ==> net.layers[0].input_len == net.input_len
    &&& forall|i: int|
        0 <= i < net.layers.len() - 1 ==> #[trigger] net.layers[i + 1].input_len
            == net.layers[i].neurons.len()
}

/// Every operator code of the unit lies in `0..16`.
pub open spec fn neuron_codes_in_range(n: NeuronModel) -> bool {
    &&& n.result_combinator < 16
    &&& forall|j: int| 0 <= j < n.input_combinators.len() ==> #[trigger] n.input_combinators[j] < 16
}

/// Every operator code of the layer lies in `0..16`.
pub open spec fn layer_codes_in_range(l: LayerModel) -> bool {
    forall|k: int| 0 <= k < l.neurons.len() ==> neuron_codes_in_range(#[trigger] l.neurons[k])
}

/// Every operator code of the network lies in `0..16`.
pub open spec fn network_codes_in_range(net: NetworkModel) -> bool {
    forall|i: int| 0 <= i < net.layers.len() ==> layer_codes_in_range(#[trigger] net.layers[i])
}

/// Number of draws that make one unit reading `n` bits: one per input
/// operator code, one for the bias and one for the result operator code.
pub open spec fn neuron_draw_count(n: nat) -> nat {
    combinator_count(n) + 2
}

/// The unit reading `n` bits that is made of the draws starting at `at`:
/// first its input operator codes, then its bias, then its result operator
/// code. A draw becomes a code by its remainder modulo 16 and a bias by its
/// parity.
pub open spec fn neuron_from_draws(n: nat, d: Seq<u8>, at: int) -> NeuronModel {
    let c = combinator_count(n);
    NeuronModel {
        bias: d[at + c] % 2 == 1,
        input_combinators: Seq::new(c, |j: int| (d[at + j] % 16) as u8),
        result_combinator: (d[at + c + 1] % 16) as u8,
    }
}

/// The layer of `m` units reading `n` bits made of the draws starting at `at`,
/// unit after unit.
pub open spec fn layer_from_draws(n: nat, m: nat, d: Seq<u8>, at: int) -> LayerModel {
    LayerModel {
        input_len: n,
        neurons: Seq::new(m, |k: int| neuron_from_draws(n, d, at + k * neuron_draw_count(n))),
    }
}

/// The input length of layer `i` of a network reading `input_len` bits.
pub open spec fn layer_input_len(input_len: nat, lens: Seq<usize>, i: int) -> nat {
    if i == 0 {
        input_len
    } else {
        lens[i - 1] as nat
    }
}

/// Number of draws that make the first `i` layers.
pub open spec fn draws_before(input_len: nat, lens: Seq<usize>, i: nat) -> nat
    decreases i,
{
    if i == 0 {
        0
    } else {
        draws_before(input_len, lens, (i - 1) as nat) + (lens[i - 1] as nat) * neuron_draw_count(
            layer_input_len(input_len, lens, i - 1),
        )
    }
}

/// Number of draws that make a whole network.
pub open spec fn draws_needed(input_len: nat, lens: Seq<usize>) -> nat {
    draws_before(input_len, lens, lens.len())
}

/// The network reading `input_len` bits with layers of `lens` units made of
/// the draws `d`, layer after layer.
pub open spec fn network_from_draws(input_len: nat, lens: Seq<usize>, d: Seq<u8>) -> NetworkModel {
    NetworkModel {
        input_len,
        layers: Seq::new(
            lens.len(),
            |i: int|
                layer_from_draws(
                    layer_input_len(input_len, lens, i),
                    lens[i] as nat,
                    d,
                    draws_before(input_len, lens, i as nat) as int,
                ),
        ),
    }
}

proof fn lemma_draws_before_grows(input_len: nat, lens: Seq<usize>, i: nat, j: nat)
    requires
        i <= j,
    ensures
        draws_before(input_len, lens, i) <= draws_before(input_len, lens, j),
    decreases j - i,
{
    if i < j {
        lemma_draws_before_grows(input_len, lens, i, (j - 1) as nat);
    }
}

/// A network made of draws has one operator per adjacent pair of inputs in
/// every unit, chained layer lengths, and operator codes in `0..16` only.
pub proof fn lemma_network_from_draws_well_formed(input_len: nat, lens: Seq<usize>, d: Seq<u8>)
    ensures
        network_well_formed(network_from_draws(input_len, lens, d)),
        network_codes_in_range(network_from_draws(input_len, lens, d)),
{
    let net = network_from_draws(input_len, lens, d);
    assert forall|i: int| 0 <= i < net.layers.len() implies layer_well_formed(
        #[trigger] net.layers[i],
    ) && layer_codes_in_range(net.layers[i]) by {
        let layer = net.layers[i];
        assert forall|k: int| 0 <= k < layer.neurons.len() implies (
        #[trigger] layer.neurons[k]).input_combinators.len() == combinator_count(layer.input_len)
            && neuron_codes_in_range(layer.neurons[k]) by {}
    }
}

/// Construction from draws is deterministic: the network depends on the
/// first `draws_needed` draws alone, so two draw sequences that agree on
/// them give the same units, with the same biases and operator codes.
pub proof fn lemma_network_from_draws_deterministic(
    input_len: nat,
    lens: Seq<usize>,
    d1: Seq<u8>,
    d2: Seq<u8>,
)
    requires
        d1.len() >= draws_needed(input_len, lens),
        d2.len() >= draws_needed(input_len, lens),
        forall|j: int| 0 <= j < draws_needed(input_len, lens) ==> d1[j] == d2[j],
    ensures
        network_from_draws(input_len, lens, d1) == network_from_draws(input_len, lens, d2),
{
    let a = network_from_draws(input_len, lens, d1);
    let b = network_from_draws(input_len, lens, d2);
    assert forall|i: int| 0 <= i < lens.len() implies #[trigger] a.layers[i] == b.layers[i] by {
        let n = layer_input_len(input_len, lens, i);
        let m = lens[i] as nat;
        let at = draws_before(input_len, lens, i as nat);
        let w = neuron_draw_count(n);
        lemma_draws_before_grows(input_len, lens, (i + 1) as nat, lens.len());
        assert(draws_before(input_len, lens, (i + 1) as nat) == at + m * w);
        assert forall|k: int| 0 <= k < m implies #[trigger] neuron_from_draws(n, d1, at + k * w)
            == neuron_from_draws(n, d2, at + k * w) by {
            assert(k * w + w <= m * w) by (nonlinear_arith)
                requires
                    0 <= k < m,
            ;
            assert(0 <= k * w) by (nonlinear_arith)
                requires
                    0 <= k,
            ;
            assert(neuron_from_draws(n, d1, at + k * w).input_combinators =~= neuron_from_draws(
                n,
                d2,
                at + k * w,
            ).input_combinators);
        }
        assert(a.layers[i].neurons =~= b.layers[i].neurons);
    }
    assert(a.layers =~= b.layers);
}

/// An evaluation result with its vector seen as a sequence.
pub open spec fn result_view(r: Result<Vec<bool>, NetworkError>) -> Result<Seq<bool>, NetworkError> {
    match r {
        Ok(v) => Ok(v@),
        Err(e) => Err(e),
    }
}

// ---------------------------------------------------------------------------
// Neuron
// ---------------------------------------------------------------------------

/// A single unit of a network.
#[derive(Clone, Debug)]
pub struct Neuron {
    /// The bias, mixed into the folded input.
    pub bias: bool,
    /// The operator codes of the fold, one per adjacent pair of inputs.
    pub input_combinators: Vec<u8>,
    /// The operator code that mixes the folded input with the bias.
    pub result_combinator: u8,
}

impl View for Neuron {
    type V = NeuronModel;

    open spec fn view(&self) -> NeuronModel {
        NeuronModel {
            bias: self.bias,
            input_combinators: self.input_combinators@,
            result_combinator: self.result_combinator,
        }
    }
}

impl Neuron {
    /// Applies this unit to a borrowed input vector.
    fn eval(&self, input: &Vec<bool>) -> (r: bool)
        requires
            input.len() >= 2,
            input.len() <= self.input_combinators.len() + 1,
        ensures
            r == neuron_eval(self@, input@),
    {
        let folded = fold_combinators(input, &self.input_combinators);
        self.apply_result(folded)
    }

    /// Applies this unit to an input vector of at least two bits.
    pub fn apply(&self, input: Vec<bool>) -> (r: bool)
        requires
            input.len() >= 2,
            input.len() <= self.input_combinators.len() + 1,
        ensures
            r == neuron_eval(self@, input@),
    {
        self.eval(&input)
    }

    /// Applies only the fold of this unit to an input vector.
    pub fn apply_input(&self, input: Vec<bool>) -> (r: bool)
        requires
            input.len() >= 2,
            input.len() <= self.input_combinators.len() + 1,
        ensures
            r == fold(input@, self.input_combinators@),
    {
        fold_combinators(&input, &self.input_combinators)
    }

    /// Creates a randomized unit for inputs of length `input_len`: a random
    /// bias, one random operator code per adjacent pair of inputs and a
    /// random result operator code.
    pub fn new(input_len: usize) -> (r: Self)
        ensures
            r@.input_combinators.len() == combinator_count(input_len as nat),
            neuron_codes_in_range(r@),
    {
        let count: usize = if input_len == 0 {
            0
        } else {
            input_len - 1
        };
        let mut ic: Vec<u8> = Vec::new();
        let mut j: usize = 0;
        while j < count
            invariant
                j <= count,
                ic.len() == j,
                forall|t: int| 0 <= t < j ==> #[trigger] ic@[t] < 16,
            decreases count - j,
        {
            ic.push(random_code());
            j = j + 1;
        }
        let bias = random_bool();
        Neuron { bias, input_combinators: ic, result_combinator: random_code() }
    }

    /// Makes the unit reading `input_len` bits out of the draws starting at `at`.
    fn from_draws_at(input_len: usize, draws: &Vec<u8>, at: usize) -> (r: Self)
        requires
            at + neuron_draw_count(input_len as nat) <= draws.len(),
        ensures
            r@ == neuron_from_draws(input_len as nat, draws@, at as int),
    {
        let count: usize = if input_len == 0 {
            0
        } else {
            input_len - 1
        };
        let mut ic: Vec<u8> = Vec::new();
        let mut j: usize = 0;
        while j < count
            invariant
                j <= count,
                count == combinator_count(input_len as nat),
                at + count + 2 <= draws.len(),
                ic@ =~= Seq::new(j as nat, |t: int| (draws@[at + t] % 16) as u8),
            decreases count - j,
        {
            ic.push(draws[at + j] % 16);
            j = j + 1;
        }
        Neuron {
            bias: draws[at + count] % 2 == 1,
            input_combinators: ic,
            result_combinator: draws[at + count + 1] % 16,
        }
    }

    /// Mixes a folded value with this unit's bias.
    pub fn apply_result(&self, input: bool) -> (r: bool)
        ensures
            r == truth_table(input, self.bias, self.result_combinator),
    {
        compute_boolean(input, self.bias, self.result_combinator)
    }
}

// ---------------------------------------------------------------------------
// Layer
// ---------------------------------------------------------------------------

/// A layer of units that all read the same input vector.
#[derive(Clone, Debug)]
pub struct Layer {
    /// The length of the input vector that every unit reads.
    pub input_len: usize,
    /// The units of this layer, in output order.
    pub neurons: Vec<Neuron>,
}

impl View for Layer {
    type V = LayerModel;

    open spec fn view(&self) -> LayerModel {
        LayerModel {
            input_len: self.input_len as nat,
            neurons: self.neurons@.map_values(|n: Neuron| n@),
        }
    }
}

impl Layer {
    /// Makes the layer of `num_neurons` units reading `input_len` bits out of
    /// the draws starting at `at`.
    fn from_draws_at(input_len: usize, num_neurons: usize, draws: &Vec<u8>, at: usize) -> (r: Self)
        requires
            at + num_neurons * neuron_draw_count(input_len as nat) <= draws.len(),
        ensures
            r@ == layer_from_draws(input_len as nat, num_neurons as nat, draws@, at as int),
    {
        let ghost w = neuron_draw_count(input_len as nat);
        let mut n: Vec<Neuron> = Vec::new();
        let mut k: usize = 0;
        let mut p: usize = at;
        while k < num_neurons
            invariant
                k <= num_neurons,
                w == neuron_draw_count(input_len as nat),
                at + num_neurons * w <= draws.len(),
                p == at + k * w,
                n.len() == k,
                forall|t: int|
                    0 <= t < k ==> (#[trigger] n@[t])@ == neuron_from_draws(
                        input_len as nat,
                        draws@,
                        at + t * w,
                    ),
            decreases num_neurons - k,
        {
            proof {
                assert(at + (k + 1) * w <= at + num_neurons * w) by (nonlinear_arith)
                    requires
                        k + 1 <= num_neurons,
                ;
                assert((k + 1) * w == k * w + w) by (nonlinear_arith);
            }
            n.push(Neuron::from_draws_at(input_len, draws, p));
            let count: usize = if input_len == 0 {
                0
            } else {
                input_len - 1
            };
            p = p + count + 2;
            k = k + 1;
        }
        let r = Layer { input_len, neurons: n };
        proof {
            assert(r@.neurons =~= layer_from_draws(
                input_len as nat,
                num_neurons as nat,
                draws@,
                at as int,
            ).neurons);
        }
        r
    }

    /// Creates a randomized layer of `num_neurons` units, each reading
    /// `input_len` bits.
    pub fn new(input_len: usize, num_neurons: usize) -> (r: Self)
        ensures
            r@.input_len == input_len,
            r@.neurons.len() == num_neurons,
            layer_well_formed(r@),
            layer_codes_in_range(r@),
    {
        let mut n: Vec<Neuron> = Vec::new();
        let mut k: usize = 0;
        while k < num_neurons
            invariant
                k <= num_neurons,
                n.len() == k,
                forall|t: int|
                    0 <= t < k ==> (#[trigger] n@[t])@.input_combinators.len() == combinator_count(
                        input_len as nat,
                    ) && neuron_codes_in_range(n@[t]@),
            decreases num_neurons - k,
        {
            n.push(Neuron::new(input_len));
            k = k + 1;
        }
        let r = Layer { input_len, neurons: n };
        proof {
            assert forall|t: int| 0 <= t < r@.neurons.len() implies #[trigger] r@.neurons[t]
                == r.neurons@[t]@ by {}
        }
        r
    }

    /// Applies every unit of this layer to the same input vector.
    pub fn apply(&self, input: Vec<bool>) -> (r: Result<Vec<bool>, NetworkError>)
        requires
            layer_well_formed(self@),
        ensures
            result_view(r) == layer_eval(self@, input@),
    {
        if input.len() != self.input_len {
            return Err(NetworkError::DimensionMismatch);
        }
        if self.neurons.len() > 0 && input.len() < 2 {
            return Err(NetworkError::InvalidInputLength);
        }
        let mut out: Vec<bool> = Vec::new();
        let mut k: usize = 0;
        while k < self.neurons.len()
            invariant
                k <= self.neurons.len(),
                layer_well_formed(self@),
                input.len() == self.input_len,
                self.neurons.len() > 0 ==> input.len() >= 2,
                out.len() == k,
                forall|j: int| 0 <= j < k ==> out@[j] == neuron_eval(self@.neurons[j], input@),
            decreases self.neurons.len() - k,
        {
            proof {
                assert(self@.neurons[k as int] == self.neurons[k as int]@);
                assert(self@.neurons[k as int].input_combinators.len() == combinator_count(
                    self.input_len as nat,
                ));
            }
            let b = self.neurons[k].eval(&input);
            out.push(b);
            k = k + 1;
        }
        proof {
            assert(out@ =~= Seq::new(self@.neurons.len(), |j: int| neuron_eval(self@.neurons[j], input@)));
        }
        Ok(out)
    }
}

// ---------------------------------------------------------------------------
// Network
// ---------------------------------------------------------------------------

/// A chain of layers; each layer reads the output of the one before.
#[derive(Clone, Debug)]
pub struct Network {
    /// The length of the input vector that the first layer reads.
    pub input_len: usize,
    /// The layers of this network, in evaluation order.
    pub layers: Vec<Layer>,
}

impl View for Network {
    type V = NetworkModel;

    open spec fn view(&self) -> NetworkModel {
        NetworkModel {
            input_len: self.input_len as nat,
            layers: self.layers@.map_values(|l: Layer| l@),
        }
    }
}

impl Network {
    /// Creates a randomized network reading `input_len` bits, whose layer `i`
    /// has `layer_lengths[i]` units.
    pub fn new(input_len: usize, layer_lengths: Vec<usize>) -> (r: Self)
        ensures
            r@.input_len == input_len,
            r@.layers.len() == layer_lengths.len(),
            forall|i: int|
                0 <= i < layer_lengths.len() ==> #[trigger] r@.layers[i].neurons.len()
                    == layer_lengths[i],
            network_well_formed(r@),
            network_codes_in_range(r@),
    {
        let mut l: Vec<Layer> = Vec::new();
        let mut i: usize = 0;
        while i < layer_lengths.len()
            invariant
                i <= layer_lengths.len(),
                l.len() == i,
                forall|t: int|
                    0 <= t < i ==> {
                        &&& (#[trigger] l@[t])@.neurons.len() == layer_lengths[t]
                        &&& l@[t]@.input_len == if t == 0 {
                            input_len
                        } else {
                            layer_lengths[t - 1]
                        }
                        &&& layer_well_formed(l@[t]@)
                        &&& layer_codes_in_range(l@[t]@)
                    },
            decreases layer_lengths.len() - i,
        {
            let layer_input = if i == 0 {
                input_len
            } else {
                layer_lengths[i - 1]
            };
            l.push(Layer::new(layer_input, layer_lengths[i]));
            i = i + 1;
        }
        let r = Network { input_len, layers: l };
        proof {
            assert forall|t: int| 0 <= t < r@.layers.len() implies #[trigger] r@.layers[t]
                == r.layers@[t]@ by {}
            assert(forall|t: int|
                0 <= t < r@.layers.len() - 1 ==> #[trigger] r@.layers[t + 1] == r.layers@[t + 1]@);
        }
        r
    }

    /// Builds the network reading `input_len` bits whose layer `i` has
    /// `layer_lengths[i]` units out of a fixed sequence of draws, unit after
    /// unit and layer after layer (see `network_from_draws`). The same draws
    /// always give the same network. Returns `None` when there are too few
    /// draws; draws beyond those needed are left unused.
    pub fn from_draws(input_len: usize, layer_lengths: Vec<usize>, draws: &Vec<u8>) -> (r: Option<
        Self,
    >)
        ensures
            r.is_some() <==> draws_needed(input_len as nat, layer_lengths@) <= draws.len(),
            r.is_some() ==> r.unwrap()@ == network_from_draws(
                input_len as nat,
                layer_lengths@,
                draws@,
            ),
            r.is_some() ==> network_well_formed(r.unwrap()@) && network_codes_in_range(
                r.unwrap()@,
            ),
    {
        let ghost lens = layer_lengths@;
        let mut l: Vec<Layer> = Vec::new();
        let mut i: usize = 0;
        let mut pos: usize = 0;
        while i < layer_lengths.len()
            invariant
                lens == layer_lengths@,
                i <= layer_lengths.len(),
                pos == draws_before(input_len as nat, lens, i as nat),
                pos <= draws.len(),
                l.len() == i,
                forall|t: int|
                    0 <= t < i ==> (#[trigger] l@[t])@ == layer_from_draws(
                        layer_input_len(input_len as nat, lens, t),
                        lens[t] as nat,
                        draws@,
                        draws_before(input_len as nat, lens, t as nat) as int,
                    ),
            decreases layer_lengths.len() - i,
        {
            let n = if i == 0 {
                input_len
            } else {
                layer_lengths[i - 1]
            };
            let m = layer_lengths[i];
            let rem = draws.len() - pos;
            let count: usize = if n == 0 {
                0
            } else {
                n - 1
            };
            let ghost w = neuron_draw_count(n as nat);
            proof {
                assert(n as nat == layer_input_len(input_len as nat, lens, i as int));
                assert(draws_before(input_len as nat, lens, (i + 1) as nat) == pos + m * w);
                lemma_draws_before_grows(input_len as nat, lens, (i + 1) as nat, lens.len());
            }
            let mut used: usize = 0;
            if m > 0 {
                if count > rem || rem - count < 2 {
                    proof {
                        assert(m * w >= w) by (nonlinear_arith)
                            requires
                                m >= 1,
                        ;
                    }
                    return None;
                }
                let width = count + 2;
                assert(width == w);
                if m > rem / width {
                    proof {
                        lemma_fundamental_div_mod(rem as int, width as int);
                        lemma_mod_pos_bound(rem as int, width as int);
                        let q = rem as int / width as int;
                        assert(m * w >= (q + 1) * w) by (nonlinear_arith)
                            requires
                                m >= q + 1,
                                w > 0,
                        ;
                        assert((q + 1) * w == w * q + w) by (nonlinear_arith);
                    }
                    return None;
                }
                proof {
                    lemma_fundamental_div_mod(rem as int, width as int);
                    lemma_mod_pos_bound(rem as int, width as int);
                    let q = rem as int / width as int;
                    assert(m * w <= w * q) by (nonlinear_arith)
                        requires
                            m <= q,
                            w > 0,
                    ;
                }
                used = m * width;
            }
            proof {
                assert(count == combinator_count(n as nat));
                if m == 0 {
                    assert(m * w == 0) by (nonlinear_arith)
                        requires
                            m == 0,
                    ;
                }
                assert(used == m * w);
            }
            l.push(Layer::from_draws_at(n, m, draws, pos));
            pos = pos + used;
            i = i + 1;
        }
        let r = Network { input_len, layers: l };
        proof {
            assert(r@.layers =~= network_from_draws(input_len as nat, lens, draws@).layers);
            lemma_network_from_draws_well_formed(input_len as nat, lens, draws@);
        }
        Some(r)
    }

    /// Runs an input vector through every layer in order.
    pub fn apply(&self, input: Vec<bool>) -> (r: Result<Vec<bool>, NetworkError>)
        requires
            network_well_formed(self@),
        ensures
            result_view(r) == network_eval(self@, input@),
    {
        if input.len() != self.input_len {
            return Err(NetworkError::DimensionMismatch);
        }
        let mut res = input;
        let mut i: usize = 0;
        while i < self.layers.len()
            invariant
                i <= self.layers.len(),
                network_well_formed(self@),
                input.len() == self.input_len,
                run_layers(self@.layers, input@, i as nat) == Ok::<Seq<bool>, NetworkError>(res@),
            decreases self.layers.len() - i,
        {
            proof {
                assert(self@.layers[i as int] == self.layers[i as int]@);
                assert(layer_well_formed(self@.layers[i as int]));
            }
            let ghost prev = res@;
            match self.layers[i].apply(res) {
                Ok(v) => {
                    res = v;
                },
                Err(e) => {
                    proof {
                        assert(run_layers(self@.layers, input@, (i + 1) as nat) == layer_eval(
                            self@.layers[i as int],
                            prev,
                        ));
                        lemma_run_layers_error_stays(
                            self@.layers,
                            input@,
                            (i + 1) as nat,
                            self@.layers.len(),
                            e,
                        );
                    }
                    return Err(e);
                },
            }
            i = i + 1;
        }
        Ok(res)
    }
}

} // verus!
