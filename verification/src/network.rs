//! The policy network: five neurons in two layers, each reading the same two
//! inputs.
use crate::fixed::{
    clamp, clamp_spec, floor_div, lemma_product_within, lemma_quotient_within, within,
    within_limit, LIMIT, ONE,
};
use crate::random::draw;
use crate::series::{lemma_squash_midpoint, lemma_squash_range, squash, squash_spec};
use crate::shot::{lemma_shot_reward_range, shot_reward};
use rand::rngs::StdRng;
use vstd::prelude::*;

verus! {

/// The number of layers.
pub const LAYERS: usize = 2;

/// The number of inputs that every neuron reads.
pub const INPUTS: usize = 2;

/// The number of neurons of a layer: three in the first, two in the second.
pub open spec fn layer_width(layer: int) -> int {
    if layer == 0 {
        3
    } else {
        2
    }
}

/// The numbers of a row.
pub open spec fn row_model(row: Vec<i64>) -> Seq<int> {
    Seq::new(row@.len(), |i: int| row@[i] as int)
}

/// The numbers of a list of rows.
pub open spec fn grid_model(grid: Vec<Vec<i64>>) -> Seq<Seq<int>> {
    Seq::new(grid@.len(), |n: int| row_model(grid@[n]))
}

/// The numbers of a list of lists of rows.
pub open spec fn stack_model(stack: Vec<Vec<Vec<i64>>>) -> Seq<Seq<Seq<int>>> {
    Seq::new(stack@.len(), |l: int| grid_model(stack@[l]))
}

/// What a network holds: `weights[layer][neuron][input]` and
/// `biases[layer][neuron]`.
pub struct NetModel {
    pub weights: Seq<Seq<Seq<int>>>,
    pub biases: Seq<Seq<int>>,
}

impl NetModel {
    /// Two layers of three and two neurons, two weights and one bias to each
    /// neuron.
    pub open spec fn shaped(self) -> bool {
        &&& self.weights.len() == LAYERS
        &&& self.biases.len() == LAYERS
        &&& forall|l: int|
            0 <= l < LAYERS ==> (#[trigger] self.weights[l]).len() == layer_width(l)
        &&& forall|l: int| 0 <= l < LAYERS ==> (#[trigger] self.biases[l]).len() == layer_width(l)
        &&& forall|l: int, n: int|
            0 <= l < LAYERS && 0 <= n < layer_width(l) ==> (#[trigger] self.weights[l][n]).len()
                == INPUTS
    }

    /// No weight and no bias is farther from zero than `bound`.
    pub open spec fn bounded_by(self, bound: int) -> bool {
        &&& forall|l: int, n: int, i: int|
            0 <= l < LAYERS && 0 <= n < layer_width(l) && 0 <= i < INPUTS ==> within(
                #[trigger] self.weights[l][n][i],
                bound,
            )
        &&& forall|l: int, n: int|
            0 <= l < LAYERS && 0 <= n < layer_width(l) ==> within(
                #[trigger] self.biases[l][n],
                bound,
            )
    }

    /// The shape is right and every number is within `LIMIT`.
    pub open spec fn wf(self) -> bool {
        self.shaped() && self.bounded_by(LIMIT as int)
    }

    /// What a neuron has summed up after `count` of its inputs: its bias and
    /// each of those inputs times its weight.
    pub open spec fn partial_input(
        self,
        layer: int,
        neuron: int,
        input: Seq<int>,
        count: int,
    ) -> int
        decreases count,
    {
        if count <= 0 {
            self.biases[layer][neuron]
        } else {
            self.partial_input(layer, neuron, input, count - 1) + input[count - 1]
                * self.weights[layer][neuron][count - 1] / (ONE as int)
        }
    }

    /// What a neuron puts out: the logistic curve of its bias and weighted
    /// inputs.
    pub open spec fn neuron_output(self, layer: int, neuron: int, input: Seq<int>) -> int {
        squash_spec(self.partial_input(layer, neuron, input, INPUTS as int))
    }

    /// What the network answers to `input`: the outputs of the second layer,
    /// which reads the input itself and not what the first layer puts out.
    pub open spec fn output(self, input: Seq<int>) -> Seq<int> {
        seq![self.neuron_output(1, 0, input), self.neuron_output(1, 1, input)]
    }
}

/// The two numbers of an observation.
pub open spec fn pair_model(pair: [i64; 2]) -> Seq<int> {
    seq![pair[0] as int, pair[1] as int]
}

/// A weight between two parents: `(1 - alpha) * mine + alpha * theirs`, kept
/// within `LIMIT`.
pub open spec fn blend_spec(mine: int, theirs: int, alpha: int) -> int {
    clamp_spec(((ONE - alpha) * mine + alpha * theirs) / (ONE as int), -LIMIT, LIMIT as int)
}

/// A weight moved by `noise * rate`, kept within `LIMIT`.
pub open spec fn nudged_spec(weight: int, noise: int, rate: int) -> int {
    clamp_spec(weight + noise * rate / (ONE as int), -LIMIT, LIMIT as int)
}

/// Whether `after` is `before` moved by `rate` times some noise of
/// `-ONE..=ONE`.
pub open spec fn is_nudge(after: int, before: int, rate: int) -> bool {
    exists|noise: int|
        within(noise, ONE as int) && after == #[trigger] nudged_spec(before, noise, rate)
}

/// Whether every number of `row` is within `bound`.
pub open spec fn row_within(row: Seq<int>, bound: int) -> bool {
    forall|i: int| 0 <= i < row.len() ==> within(#[trigger] row[i], bound)
}

/// Whether every number of `grid` is within `bound`.
pub open spec fn grid_within(grid: Seq<Seq<int>>, bound: int) -> bool {
    forall|n: int| 0 <= n < grid.len() ==> row_within(#[trigger] grid[n], bound)
}

/// Whether two grids have as many rows, and row by row as many numbers.
pub open spec fn same_shape(a: Seq<Seq<int>>, b: Seq<Seq<int>>) -> bool {
    a.len() == b.len() && forall|n: int| 0 <= n < a.len() ==> (#[trigger] a[n]).len() == b[n].len()
}

/// Number by number, the blend of two rows.
pub open spec fn blended_row(mine: Seq<int>, theirs: Seq<int>, alpha: int) -> Seq<int> {
    Seq::new(mine.len(), |i: int| blend_spec(mine[i], theirs[i], alpha))
}

/// Row by row, the blend of two grids.
pub open spec fn blended_grid(mine: Seq<Seq<int>>, theirs: Seq<Seq<int>>, alpha: int) -> Seq<
    Seq<int>,
> {
    Seq::new(mine.len(), |n: int| blended_row(mine[n], theirs[n], alpha))
}

/// Whether `after` is `before` with every number nudged.
pub open spec fn row_nudged(after: Seq<int>, before: Seq<int>, rate: int) -> bool {
    after.len() == before.len() && forall|i: int|
        0 <= i < after.len() ==> is_nudge(#[trigger] after[i], before[i], rate)
}

/// Whether `after` is `before` with every number nudged.
pub open spec fn grid_nudged(after: Seq<Seq<int>>, before: Seq<Seq<int>>, rate: int) -> bool {
    after.len() == before.len() && forall|n: int|
        0 <= n < after.len() ==> row_nudged(#[trigger] after[n], before[n], rate)
}

impl NetModel {
    /// The child of two networks: every weight blended, the biases those of
    /// the first parent.
    pub open spec fn crossed(self, other: NetModel, alpha: int) -> NetModel {
        NetModel {
            weights: Seq::new(
                self.weights.len(),
                |l: int| blended_grid(self.weights[l], other.weights[l], alpha),
            ),
            biases: self.biases,
        }
    }

    /// Whether this network is `before` after a mutation at `rate`: every
    /// weight nudged, the biases untouched.
    pub open spec fn mutated_from(self, before: NetModel, rate: int) -> bool {
        &&& self.biases == before.biases
        &&& self.weights.len() == before.weights.len()
        &&& forall|l: int|
            0 <= l < self.weights.len() ==> grid_nudged(
                #[trigger] self.weights[l],
                before.weights[l],
                rate,
            )
    }

    /// What `wf` says of one layer, in terms of rows and grids.
    pub proof fn lemma_layer(self, layer: int)
        requires
            self.shaped(),
            0 <= layer < LAYERS,
        ensures
            self.weights[layer].len() == layer_width(layer),
            self.biases[layer].len() == layer_width(layer),
            forall|n: int|
                0 <= n < layer_width(layer) ==> (#[trigger] self.weights[layer][n]).len() == INPUTS,
            forall|bound: int|
                self.bounded_by(bound) ==> #[trigger] grid_within(self.weights[layer], bound)
                    && row_within(self.biases[layer], bound),
    {
        assert forall|bound: int| self.bounded_by(bound) implies #[trigger] grid_within(
            self.weights[layer],
            bound,
        ) && row_within(self.biases[layer], bound) by {
            assert forall|n: int| 0 <= n < self.weights[layer].len() implies row_within(
                #[trigger] self.weights[layer][n],
                bound,
            ) by {
            }
        }
    }

    /// A network is well formed when its layers are.
    pub proof fn lemma_from_layers(self, bound: int)
        requires
            self.weights.len() == LAYERS,
            self.biases.len() == LAYERS,
            forall|l: int| 0 <= l < LAYERS ==> (#[trigger] self.weights[l]).len() == layer_width(l),
            forall|l: int| 0 <= l < LAYERS ==> (#[trigger] self.biases[l]).len() == layer_width(l),
            forall|l: int, n: int|
                0 <= l < LAYERS && 0 <= n < layer_width(l) ==> (#[trigger] self.weights[l][n]).len()
                    == INPUTS,
            forall|l: int| 0 <= l < LAYERS ==> grid_within(#[trigger] self.weights[l], bound),
            forall|l: int| 0 <= l < LAYERS ==> row_within(#[trigger] self.biases[l], bound),
        ensures
            self.shaped(),
            self.bounded_by(bound),
    {
        assert forall|l: int, n: int, i: int|
            0 <= l < LAYERS && 0 <= n < layer_width(l) && 0 <= i < INPUTS implies within(
            #[trigger] self.weights[l][n][i],
            bound,
        ) by {
        }
        assert forall|l: int, n: int| 0 <= l < LAYERS && 0 <= n < layer_width(l) implies within(
            #[trigger] self.biases[l][n],
            bound,
        ) by {
        }
    }
}

/// A blend stays within `LIMIT`, and the blend of a weight with itself is
/// that weight, whatever `alpha`.
pub proof fn lemma_blend(mine: int, theirs: int, alpha: int)
    ensures
        within_limit(blend_spec(mine, theirs, alpha)),
        within_limit(mine) ==> blend_spec(mine, mine, alpha) == mine,
{
    assert((ONE - alpha) * mine + alpha * mine == mine * ONE) by (nonlinear_arith);
    assert(mine * ONE / (ONE as int) == mine) by {
        vstd::arithmetic::div_mod::lemma_div_multiples_vanish(mine, ONE as int);
        assert(mine * ONE == ONE * mine) by (nonlinear_arith);
    }
}

/// A nudge stays within `LIMIT`, and at rate zero it moves nothing.
pub proof fn lemma_nudge(weight: int, noise: int, rate: int)
    ensures
        within_limit(nudged_spec(weight, noise, rate)),
        within_limit(weight) ==> nudged_spec(weight, noise, 0) == weight,
{
    assert(noise * 0 == 0) by (nonlinear_arith);
}

/// The policy network.
#[derive(Debug)]
pub struct NeuralNetwork {
    weights: Vec<Vec<Vec<i64>>>,
    biases: Vec<Vec<i64>>,
}

impl View for NeuralNetwork {
    type V = NetModel;

    closed spec fn view(&self) -> NetModel {
        NetModel { weights: stack_model(self.weights), biases: grid_model(self.biases) }
    }
}

/// Whether `row` has `len` numbers, each within `LIMIT`.
fn row_fits(row: &Vec<i64>, len: usize) -> (ok: bool)
    ensures
        ok == (row@.len() == len && forall|i: int|
            0 <= i < len ==> within_limit(#[trigger] row_model(*row)[i])),
{
    if row.len() != len {
        return false;
    }
    let mut i: usize = 0;
    while i < len
        invariant
            0 <= i <= len,
            row@.len() == len,
            forall|j: int| 0 <= j < i ==> within_limit(#[trigger] row_model(*row)[j]),
        decreases len - i,
    {
        if row[i] < -LIMIT || row[i] > LIMIT {
            assert(!within_limit(row_model(*row)[i as int]));
            return false;
        }
        i = i + 1;
    }
    true
}

/// Whether `grid` has `len` rows, each of `INPUTS` numbers within `LIMIT`.
fn grid_fits(grid: &Vec<Vec<i64>>, len: usize) -> (ok: bool)
    ensures
        ok == (grid@.len() == len && forall|n: int|
            0 <= n < len ==> (#[trigger] grid_model(*grid)[n]).len() == INPUTS && forall|i: int|
                0 <= i < INPUTS ==> within_limit(#[trigger] grid_model(*grid)[n][i])),
{
    if grid.len() != len {
        return false;
    }
    let mut n: usize = 0;
    while n < len
        invariant
            0 <= n <= len,
            grid@.len() == len,
            forall|m: int|
                0 <= m < n ==> (#[trigger] grid_model(*grid)[m]).len() == INPUTS && forall|i: int|
                    0 <= i < INPUTS ==> within_limit(#[trigger] grid_model(*grid)[m][i]),
        decreases len - n,
    {
        if !row_fits(&grid[n], INPUTS) {
            assert(grid_model(*grid)[n as int] == row_model(grid@[n as int]));
            return false;
        }
        n = n + 1;
    }
    true
}

impl NeuralNetwork {
    /// The network with the given weights and biases, if they have the shape
    /// of a network and no number is farther from zero than `LIMIT`.
    #[verifier::rlimit(40)]
    pub fn from_parts(weights: Vec<Vec<Vec<i64>>>, biases: Vec<Vec<i64>>) -> (net: Option<Self>)
        ensures
            net is Some <==> (NetModel {
                weights: stack_model(weights),
                biases: grid_model(biases),
            }).wf(),
            net is Some ==> net.unwrap()@ == (NetModel {
                weights: stack_model(weights),
                biases: grid_model(biases),
            }),
    {
        let ghost model = NetModel { weights: stack_model(weights), biases: grid_model(biases) };
        if weights.len() != LAYERS || biases.len() != LAYERS {
            return None;
        }
        if !grid_fits(&weights[0], 3) {
            assert(!model.wf()) by {
                if model.wf() {
                    assert(model.weights[0].len() == 3);
                    assert forall|n: int| 0 <= n < 3 implies (#[trigger] model.weights[0][n]).len()
                        == INPUTS && forall|i: int|
                        0 <= i < INPUTS ==> within_limit(#[trigger] model.weights[0][n][i]) by {
                    }
                }
            }
            return None;
        }
        if !grid_fits(&weights[1], 2) {
            assert(!model.wf()) by {
                if model.wf() {
                    assert(model.weights[1].len() == 2);
                    assert forall|n: int| 0 <= n < 2 implies (#[trigger] model.weights[1][n]).len()
                        == INPUTS && forall|i: int|
                        0 <= i < INPUTS ==> within_limit(#[trigger] model.weights[1][n][i]) by {
                    }
                }
            }
            return None;
        }
        if !row_fits(&biases[0], 3) {
            assert(!model.wf()) by {
                if model.wf() {
                    assert(model.biases[0].len() == 3);
                    assert forall|n: int| 0 <= n < 3 implies within_limit(
                        #[trigger] model.biases[0][n],
                    ) by {
                    }
                }
            }
            return None;
        }
        if !row_fits(&biases[1], 2) {
            assert(!model.wf()) by {
                if model.wf() {
                    assert(model.biases[1].len() == 2);
                    assert forall|n: int| 0 <= n < 2 implies within_limit(
                        #[trigger] model.biases[1][n],
                    ) by {
                    }
                }
            }
            return None;
        }
        Some(NeuralNetwork { weights, biases })
    }

    /// The weight that `neuron` of `layer` gives to `input`.
    pub fn get_weight(&self, layer: usize, neuron: usize, input: usize) -> (w: i64)
        requires
            self@.wf(),
            layer < LAYERS,
            neuron < layer_width(layer as int),
            input < INPUTS,
        ensures
            w == self@.weights[layer as int][neuron as int][input as int],
            within_limit(w as int),
    {
        proof {
            self.lemma_storage(layer as int, neuron as int);
        }
        self.weights[layer][neuron][input]
    }

    /// The bias of `neuron` of `layer`.
    pub fn get_bias(&self, layer: usize, neuron: usize) -> (b: i64)
        requires
            self@.wf(),
            layer < LAYERS,
            neuron < layer_width(layer as int),
        ensures
            b == self@.biases[layer as int][neuron as int],
            within_limit(b as int),
    {
        proof {
            self.lemma_storage(layer as int, neuron as int);
        }
        self.biases[layer][neuron]
    }

    /// The number of layers.
    pub fn layers_count(&self) -> (count: usize)
        requires
            self@.wf(),
        ensures
            count == LAYERS,
    {
        self.biases.len()
    }

    /// The number of neurons of `layer`.
    pub fn neurons_count(&self, layer: usize) -> (count: usize)
        requires
            self@.wf(),
            layer < LAYERS,
        ensures
            count == layer_width(layer as int),
    {
        proof {
            self.lemma_storage(layer as int, 0);
        }
        self.biases[layer].len()
    }

    /// The number of inputs that `neuron` of `layer` reads.
    pub fn connections_count(&self, layer: usize, neuron: usize) -> (count: usize)
        requires
            self@.wf(),
            layer < LAYERS,
            neuron < layer_width(layer as int),
        ensures
            count == INPUTS,
    {
        proof {
            self.lemma_storage(layer as int, neuron as int);
        }
        self.weights[layer][neuron].len()
    }

    /// How the stored vectors relate to the model, for one neuron.
    proof fn lemma_storage(&self, layer: int, neuron: int)
        requires
            self@.wf(),
            0 <= layer < LAYERS,
            0 <= neuron < layer_width(layer),
        ensures
            self.weights@.len() == LAYERS,
            self.biases@.len() == LAYERS,
            self.weights@[layer]@.len() == layer_width(layer),
            self.biases@[layer]@.len() == layer_width(layer),
            self.weights@[layer]@[neuron]@.len() == INPUTS,
            self@.weights[layer][neuron] == row_model(self.weights@[layer]@[neuron]),
            self@.biases[layer] == row_model(self.biases@[layer]),
            self@.biases[layer][neuron] == self.biases@[layer]@[neuron],
            forall|i: int|
                0 <= i < INPUTS ==> #[trigger] self@.weights[layer][neuron][i]
                    == self.weights@[layer]@[neuron]@[i],
            forall|i: int|
                0 <= i < INPUTS ==> within_limit(#[trigger] self.weights@[layer]@[neuron]@[i] as int),
            within_limit(self.biases@[layer]@[neuron] as int),
    {
        let m = self@;
        assert(m.weights[layer][neuron].len() == INPUTS);
        assert forall|i: int| 0 <= i < INPUTS implies within_limit(
            #[trigger] self.weights@[layer]@[neuron]@[i] as int,
        ) by {
            assert(within(m.weights[layer][neuron][i], LIMIT as int));
        }
        assert(within(m.biases[layer][neuron], LIMIT as int));
    }

    /// The logistic curve `1 / (1 + e^-net)`, which stops one millionth
    /// short of 0 and of 1.
    pub fn activation(net: i128) -> (out: i64)
        ensures
            out == squash_spec(net as int),
            0 < out < ONE,
    {
        squash(net)
    }
}

/// A weight between two parents.
pub fn blend(mine: i64, theirs: i64, alpha: i64) -> (w: i64)
    requires
        within_limit(mine as int),
        within_limit(theirs as int),
    ensures
        w == blend_spec(mine as int, theirs as int, alpha as int),
        within_limit(w as int),
{
    let keep: i128 = ONE as i128 - alpha as i128;
    proof {
        lemma_product_within(keep as int, mine as int, 10_000_000_000_000_000_000, LIMIT as int);
        lemma_product_within(alpha as int, theirs as int, 10_000_000_000_000_000_000, LIMIT as int);
    }
    let mixed: i128 = keep * mine as i128 + alpha as i128 * theirs as i128;
    clamp(floor_div(mixed, ONE as i128), -LIMIT, LIMIT)
}

/// A weight moved by `noise * rate`.
pub fn nudged(weight: i64, noise: i64, rate: i64) -> (w: i64)
    requires
        within_limit(weight as int),
        within(noise as int, ONE as int),
    ensures
        w == nudged_spec(weight as int, noise as int, rate as int),
        within_limit(w as int),
{
    proof {
        lemma_product_within(noise as int, rate as int, ONE as int, 10_000_000_000_000_000_000);
        lemma_quotient_within(noise * rate, ONE as int, 10_000_000_000_000_000_000);
    }
    let step: i128 = floor_div(noise as i128 * rate as i128, ONE as i128);
    clamp(weight as i128 + step, -LIMIT, LIMIT)
}

/// Number by number, the blend of two rows.
fn blend_rows(mine: &Vec<i64>, theirs: &Vec<i64>, alpha: i64) -> (row: Vec<i64>)
    requires
        mine@.len() == theirs@.len(),
        row_within(row_model(*mine), LIMIT as int),
        row_within(row_model(*theirs), LIMIT as int),
    ensures
        row_model(row) == blended_row(row_model(*mine), row_model(*theirs), alpha as int),
        row_within(row_model(row), LIMIT as int),
{
    let mut row: Vec<i64> = Vec::new();
    let mut i: usize = 0;
    while i < mine.len()
        invariant
            0 <= i <= mine@.len(),
            mine@.len() == theirs@.len(),
            row_within(row_model(*mine), LIMIT as int),
            row_within(row_model(*theirs), LIMIT as int),
            row@.len() == i,
            forall|j: int|
                0 <= j < i ==> #[trigger] row@[j] == blend_spec(
                    mine@[j] as int,
                    theirs@[j] as int,
                    alpha as int,
                ),
        decreases mine@.len() - i,
    {
        assert(within(row_model(*mine)[i as int], LIMIT as int));
        assert(within(row_model(*theirs)[i as int], LIMIT as int));
        row.push(blend(mine[i], theirs[i], alpha));
        i = i + 1;
    }
    proof {
        assert forall|j: int| 0 <= j < row_model(row).len() implies within(
            #[trigger] row_model(row)[j],
            LIMIT as int,
        ) by {
            lemma_blend(mine@[j] as int, theirs@[j] as int, alpha as int);
        }
    }
    row
}

/// Row by row, the blend of two grids.
fn blend_grids(mine: &Vec<Vec<i64>>, theirs: &Vec<Vec<i64>>, alpha: i64) -> (grid: Vec<Vec<i64>>)
    requires
        same_shape(grid_model(*mine), grid_model(*theirs)),
        grid_within(grid_model(*mine), LIMIT as int),
        grid_within(grid_model(*theirs), LIMIT as int),
    ensures
        grid_model(grid) == blended_grid(grid_model(*mine), grid_model(*theirs), alpha as int),
        same_shape(grid_model(grid), grid_model(*mine)),
        grid_within(grid_model(grid), LIMIT as int),
{
    let mut grid: Vec<Vec<i64>> = Vec::new();
    let mut n: usize = 0;
    while n < mine.len()
        invariant
            0 <= n <= mine@.len(),
            same_shape(grid_model(*mine), grid_model(*theirs)),
            grid_within(grid_model(*mine), LIMIT as int),
            grid_within(grid_model(*theirs), LIMIT as int),
            grid@.len() == n,
            forall|m: int|
                0 <= m < n ==> #[trigger] row_model(grid@[m]) == blended_row(
                    row_model(mine@[m]),
                    row_model(theirs@[m]),
                    alpha as int,
                ),
            forall|m: int| 0 <= m < n ==> row_within(#[trigger] row_model(grid@[m]), LIMIT as int),
        decreases mine@.len() - n,
    {
        assert(row_within(grid_model(*mine)[n as int], LIMIT as int));
        let row = blend_rows(&mine[n], &theirs[n], alpha);
        grid.push(row);
        n = n + 1;
    }
    proof {
        assert(grid_model(grid) =~= blended_grid(
            grid_model(*mine),
            grid_model(*theirs),
            alpha as int,
        ));
        assert forall|m: int| 0 <= m < grid_model(grid).len() implies (#[trigger] grid_model(
            grid,
        )[m]).len() == grid_model(*mine)[m].len() by {
        }
        assert forall|m: int| 0 <= m < grid_model(grid).len() implies row_within(
            #[trigger] grid_model(grid)[m],
            LIMIT as int,
        ) by {
        }
    }
    grid
}

/// A copy of `row`.
fn copy_row(row: &Vec<i64>) -> (copy: Vec<i64>)
    ensures
        copy@ == row@,
{
    let mut copy: Vec<i64> = Vec::new();
    let mut i: usize = 0;
    while i < row.len()
        invariant
            0 <= i <= row@.len(),
            copy@ == row@.subrange(0, i as int),
        decreases row@.len() - i,
    {
        copy.push(row[i]);
        i = i + 1;
    }
    copy
}

/// A copy of `grid`.
fn copy_grid(grid: &Vec<Vec<i64>>) -> (copy: Vec<Vec<i64>>)
    ensures
        grid_model(copy) == grid_model(*grid),
{
    let mut copy: Vec<Vec<i64>> = Vec::new();
    let mut n: usize = 0;
    while n < grid.len()
        invariant
            0 <= n <= grid@.len(),
            copy@.len() == n,
            forall|m: int| 0 <= m < n ==> (#[trigger] copy@[m])@ == grid@[m]@,
        decreases grid@.len() - n,
    {
        copy.push(copy_row(&grid[n]));
        n = n + 1;
    }
    proof {
        assert forall|m: int| 0 <= m < copy@.len() implies #[trigger] grid_model(copy)[m]
            == grid_model(*grid)[m] by {
        }
    }
    copy
}

/// `row` with every number nudged by `rate` times a fresh draw from
/// `-ONE..=ONE`.
fn nudge_row(row: &Vec<i64>, rate: i64, rng: &mut StdRng) -> (after: Vec<i64>)
    requires
        row_within(row_model(*row), LIMIT as int),
    ensures
        row_nudged(row_model(after), row_model(*row), rate as int),
        row_within(row_model(after), LIMIT as int),
{
    let mut after: Vec<i64> = Vec::new();
    let mut i: usize = 0;
    while i < row.len()
        invariant
            0 <= i <= row@.len(),
            row_within(row_model(*row), LIMIT as int),
            after@.len() == i,
            forall|j: int|
                0 <= j < i ==> is_nudge(#[trigger] after@[j] as int, row@[j] as int, rate as int),
            forall|j: int| 0 <= j < i ==> within_limit(#[trigger] after@[j] as int),
        decreases row@.len() - i,
    {
        assert(within(row_model(*row)[i as int], LIMIT as int));
        let noise = draw(rng, -ONE, ONE);
        let moved = nudged(row[i], noise, rate);
        assert(is_nudge(moved as int, row@[i as int] as int, rate as int)) by {
            assert(within(noise as int, ONE as int) && moved == nudged_spec(
                row@[i as int] as int,
                noise as int,
                rate as int,
            ));
        }
        after.push(moved);
        i = i + 1;
    }
    proof {
        assert forall|j: int| 0 <= j < row_model(after).len() implies is_nudge(
            #[trigger] row_model(after)[j],
            row_model(*row)[j],
            rate as int,
        ) by {
        }
        assert forall|j: int| 0 <= j < row_model(after).len() implies within(
            #[trigger] row_model(after)[j],
            LIMIT as int,
        ) by {
            assert(within_limit(after@[j] as int));
        }
    }
    after
}

/// `grid` with every number nudged.
fn nudge_grid(grid: &Vec<Vec<i64>>, rate: i64, rng: &mut StdRng) -> (after: Vec<Vec<i64>>)
    requires
        grid_within(grid_model(*grid), LIMIT as int),
    ensures
        grid_nudged(grid_model(after), grid_model(*grid), rate as int),
        grid_within(grid_model(after), LIMIT as int),
{
    let mut after: Vec<Vec<i64>> = Vec::new();
    let mut n: usize = 0;
    while n < grid.len()
        invariant
            0 <= n <= grid@.len(),
            grid_within(grid_model(*grid), LIMIT as int),
            after@.len() == n,
            forall|m: int|
                0 <= m < n ==> row_nudged(
                    #[trigger] row_model(after@[m]),
                    row_model(grid@[m]),
                    rate as int,
                ),
            forall|m: int| 0 <= m < n ==> row_within(#[trigger] row_model(after@[m]), LIMIT as int),
        decreases grid@.len() - n,
    {
        assert(row_within(grid_model(*grid)[n as int], LIMIT as int));
        let row = nudge_row(&grid[n], rate, rng);
        after.push(row);
        n = n + 1;
    }
    proof {
        assert forall|m: int| 0 <= m < grid_model(after).len() implies row_nudged(
            #[trigger] grid_model(after)[m],
            grid_model(*grid)[m],
            rate as int,
        ) by {
        }
        assert forall|m: int| 0 <= m < grid_model(after).len() implies row_within(
            #[trigger] grid_model(after)[m],
            LIMIT as int,
        ) by {
        }
    }
    after
}

/// A row of `len` draws from `-ONE..=ONE`.
fn random_row(len: usize, rng: &mut StdRng) -> (row: Vec<i64>)
    ensures
        row@.len() == len,
        row_within(row_model(row), ONE as int),
{
    let mut row: Vec<i64> = Vec::new();
    let mut i: usize = 0;
    while i < len
        invariant
            0 <= i <= len,
            row@.len() == i,
            forall|j: int| 0 <= j < i ==> within(#[trigger] row@[j] as int, ONE as int),
        decreases len - i,
    {
        row.push(draw(rng, -ONE, ONE));
        i = i + 1;
    }
    proof {
        assert forall|j: int| 0 <= j < row_model(row).len() implies within(
            #[trigger] row_model(row)[j],
            ONE as int,
        ) by {
        }
    }
    row
}

/// A grid of `len` rows of `INPUTS` draws from `-ONE..=ONE`.
fn random_grid(len: usize, rng: &mut StdRng) -> (grid: Vec<Vec<i64>>)
    ensures
        grid@.len() == len,
        forall|n: int| 0 <= n < len ==> (#[trigger] grid_model(grid)[n]).len() == INPUTS,
        grid_within(grid_model(grid), ONE as int),
{
    let mut grid: Vec<Vec<i64>> = Vec::new();
    let mut n: usize = 0;
    while n < len
        invariant
            0 <= n <= len,
            grid@.len() == n,
            forall|m: int| 0 <= m < n ==> (#[trigger] grid@[m])@.len() == INPUTS,
            forall|m: int| 0 <= m < n ==> row_within(#[trigger] row_model(grid@[m]), ONE as int),
        decreases len - n,
    {
        let row = random_row(INPUTS, rng);
        grid.push(row);
        n = n + 1;
    }
    proof {
        assert forall|m: int| 0 <= m < len implies (#[trigger] grid_model(grid)[m]).len()
            == INPUTS by {
        }
        assert forall|m: int| 0 <= m < grid_model(grid).len() implies row_within(
            #[trigger] grid_model(grid)[m],
            ONE as int,
        ) by {
        }
    }
    grid
}

/// A copy of `stack`.
fn copy_stack(stack: &Vec<Vec<Vec<i64>>>) -> (copy: Vec<Vec<Vec<i64>>>)
    ensures
        stack_model(copy) == stack_model(*stack),
{
    let mut copy: Vec<Vec<Vec<i64>>> = Vec::new();
    let mut l: usize = 0;
    while l < stack.len()
        invariant
            0 <= l <= stack@.len(),
            copy@.len() == l,
            forall|k: int| 0 <= k < l ==> grid_model(#[trigger] copy@[k]) == grid_model(stack@[k]),
        decreases stack@.len() - l,
    {
        copy.push(copy_grid(&stack[l]));
        l = l + 1;
    }
    copy
}

impl Clone for NeuralNetwork {
    /// A network with the same weights and biases.
    fn clone(&self) -> (copy: Self)
        ensures
            copy@ == self@,
    {
        NeuralNetwork { weights: copy_stack(&self.weights), biases: copy_grid(&self.biases) }
    }
}

/// The side of the square of heights that a network is scored on.
pub const GRID_SIDE: i64 = 11;

/// The distance between two neighbouring heights of that square: a tenth.
pub const GRID_STEP: i64 = 100_000;

/// The most that a network can score: a full point on every cell.
pub const TOP_SCORE: i64 = 121_000_000;

impl NetModel {
    /// What the network wins on the cell `(i, j)` of the square: the reward
    /// of the shot that it chooses when it stands at height `i / 10` and the
    /// opponent at height `j / 10`.
    pub open spec fn cell_reward(self, i: int, j: int) -> int {
        let own = i * GRID_STEP;
        let other = j * GRID_STEP;
        let action = self.output(seq![own, other]);
        shot_reward(action[0], action[1], own, other)
    }

    /// What the network wins on the first `cells` cells, row by row.
    pub open spec fn score_upto(self, cells: int) -> int
        decreases cells,
    {
        if cells <= 0 {
            0
        } else {
            self.score_upto(cells - 1) + self.cell_reward(
                (cells - 1) / (GRID_SIDE as int),
                (cells - 1) % (GRID_SIDE as int),
            )
        }
    }

    /// What the network wins on the whole square.
    #[verifier::opaque]
    pub open spec fn score(self) -> int {
        self.score_upto(GRID_SIDE * GRID_SIDE)
    }

    /// The score lies between nothing and a point for every cell.
    pub proof fn lemma_score_range(self)
        ensures
            0 <= self.score() <= TOP_SCORE,
    {
        reveal(NetModel::score);
        self.lemma_score_bounds(GRID_SIDE * GRID_SIDE);
    }

    /// A score over `cells` cells lies between nothing and a point a cell.
    pub proof fn lemma_score_bounds(self, cells: int)
        requires
            0 <= cells,
        ensures
            0 <= self.score_upto(cells) <= cells * ONE,
        decreases cells,
    {
        if cells > 0 {
            self.lemma_score_bounds(cells - 1);
            let i = (cells - 1) / (GRID_SIDE as int);
            let j = (cells - 1) % (GRID_SIDE as int);
            let own = i * GRID_STEP;
            let other = j * GRID_STEP;
            let action = self.output(seq![own, other]);
            lemma_shot_reward_range(action[0], action[1], own, other);
        }
    }
}

/// Whatever the weights, the biases and the input, both numbers of the
/// answer lie strictly between nothing and one.
pub proof fn lemma_output_range(net: NetModel, input: Seq<int>)
    ensures
        net.output(input).len() == 2,
        0 < net.output(input)[0] < ONE,
        0 < net.output(input)[1] < ONE,
{
    lemma_squash_range(net.partial_input(1, 0, input, INPUTS as int));
    lemma_squash_range(net.partial_input(1, 1, input, INPUTS as int));
}

/// A neuron without weights and without bias puts out one half, whatever it
/// is shown.
pub proof fn lemma_idle_neuron(net: NetModel, layer: int, neuron: int, input: Seq<int>)
    requires
        net.biases[layer][neuron] == 0,
        net.weights[layer][neuron][0] == 0,
        net.weights[layer][neuron][1] == 0,
    ensures
        net.neuron_output(layer, neuron, input) == ONE / 2,
{
    assert(input[0] * 0 == 0) by (nonlinear_arith);
    assert(input[1] * 0 == 0) by (nonlinear_arith);
    assert(net.partial_input(layer, neuron, input, 0) == 0);
    assert(net.partial_input(layer, neuron, input, 1) == 0);
    lemma_squash_midpoint();
}

/// Crossing a network with itself changes nothing, whatever `alpha`.
pub proof fn lemma_crossover_with_self(net: NetModel, alpha: int)
    requires
        net.wf(),
    ensures
        net.crossed(net, alpha) == net,
{
    let child = net.crossed(net, alpha);
    assert forall|l: int| 0 <= l < LAYERS implies #[trigger] child.weights[l] == net.weights[l] by {
        net.lemma_layer(l);
        assert forall|n: int| 0 <= n < layer_width(l) implies #[trigger] child.weights[l][n]
            == net.weights[l][n] by {
            assert forall|i: int| 0 <= i < INPUTS implies #[trigger] child.weights[l][n][i]
                == net.weights[l][n][i] by {
                lemma_blend(net.weights[l][n][i], net.weights[l][n][i], alpha);
            }
        }
    }
    assert(child.weights =~= net.weights);
}

/// A mutation at rate zero changes nothing.
pub proof fn lemma_mutation_at_rate_zero(after: NetModel, before: NetModel)
    requires
        before.wf(),
        after.mutated_from(before, 0),
    ensures
        after == before,
{
    assert forall|l: int| 0 <= l < LAYERS implies #[trigger] after.weights[l]
        == before.weights[l] by {
        before.lemma_layer(l);
        assert forall|n: int| 0 <= n < layer_width(l) implies #[trigger] after.weights[l][n]
            == before.weights[l][n] by {
            assert forall|i: int| 0 <= i < INPUTS implies #[trigger] after.weights[l][n][i]
                == before.weights[l][n][i] by {
                let noise = choose|noise: int|
                    within(noise, ONE as int) && after.weights[l][n][i] == #[trigger] nudged_spec(
                        before.weights[l][n][i],
                        noise,
                        0,
                    );
                lemma_nudge(before.weights[l][n][i], noise, 0);
            }
        }
    }
    assert(after.weights =~= before.weights);
}

/// Neither a crossover nor a mutation touches a bias.
pub proof fn lemma_biases_kept(before: NetModel, other: NetModel, alpha: int, after: NetModel, rate: int)
    ensures
        before.crossed(other, alpha).biases == before.biases,
        after.mutated_from(before, rate) ==> after.biases == before.biases,
{
}

/// The child of two well-formed networks is well formed.
pub proof fn lemma_crossed_wf(mine: NetModel, theirs: NetModel, alpha: int)
    requires
        mine.wf(),
        theirs.wf(),
    ensures
        mine.crossed(theirs, alpha).wf(),
{
    let child = mine.crossed(theirs, alpha);
    assert forall|l: int| 0 <= l < LAYERS implies (#[trigger] child.weights[l]).len()
        == layer_width(l) by {
        mine.lemma_layer(l);
    }
    assert forall|l: int, n: int| 0 <= l < LAYERS && 0 <= n < layer_width(l) implies (
    #[trigger] child.weights[l][n]).len() == INPUTS by {
        mine.lemma_layer(l);
    }
    assert forall|l: int| 0 <= l < LAYERS implies grid_within(
        #[trigger] child.weights[l],
        LIMIT as int,
    ) by {
        mine.lemma_layer(l);
        assert forall|n: int| 0 <= n < child.weights[l].len() implies row_within(
            #[trigger] child.weights[l][n],
            LIMIT as int,
        ) by {
            assert forall|i: int| 0 <= i < child.weights[l][n].len() implies within(
                #[trigger] child.weights[l][n][i],
                LIMIT as int,
            ) by {
                lemma_blend(mine.weights[l][n][i], theirs.weights[l][n][i], alpha);
            }
        }
    }
    assert forall|l: int| 0 <= l < LAYERS implies row_within(
        #[trigger] child.biases[l],
        LIMIT as int,
    ) by {
        mine.lemma_layer(l);
    }
    child.lemma_from_layers(LIMIT as int);
}

/// A mutated well-formed network has the shape of a network.
pub proof fn lemma_mutated_shaped(after: NetModel, before: NetModel, rate: int)
    requires
        before.shaped(),
        after.mutated_from(before, rate),
    ensures
        after.shaped(),
{
    assert forall|l: int| 0 <= l < LAYERS implies (#[trigger] after.weights[l]).len()
        == layer_width(l) by {
        before.lemma_layer(l);
    }
    assert forall|l: int, n: int| 0 <= l < LAYERS && 0 <= n < layer_width(l) implies (
    #[trigger] after.weights[l][n]).len() == INPUTS by {
        before.lemma_layer(l);
    }
}

impl NeuralNetwork {
    /// A network whose weights and biases are drawn, each on its own, from
    /// `-ONE..=ONE`.
    pub fn new(rng: &mut StdRng) -> (net: Self)
        ensures
            net@.wf(),
            net@.bounded_by(ONE as int),
    {
        let w0 = random_grid(3, rng);
        let w1 = random_grid(2, rng);
        let b0 = random_row(3, rng);
        let b1 = random_row(2, rng);
        let net = NeuralNetwork { weights: vec![w0, w1], biases: vec![b0, b1] };
        proof {
            let m = net@;
            m.lemma_from_layers(ONE as int);
        }
        net
    }

    /// What `neuron` of `layer` puts out for `input`.
    fn neuron_value(&self, layer: usize, neuron: usize, input: &[i64; 2]) -> (out: i64)
        requires
            self@.wf(),
            layer < LAYERS,
            neuron < layer_width(layer as int),
        ensures
            out == self@.neuron_output(layer as int, neuron as int, pair_model(*input)),
            0 < out < ONE,
    {
        let ghost values = pair_model(*input);
        let mut net: i128 = self.get_bias(layer, neuron) as i128;
        let mut n_connection: usize = 0;
        while n_connection < self.connections_count(layer, neuron)
            invariant
                self@.wf(),
                layer < LAYERS,
                neuron < layer_width(layer as int),
                values == pair_model(*input),
                0 <= n_connection <= INPUTS,
                net == self@.partial_input(
                    layer as int,
                    neuron as int,
                    values,
                    n_connection as int,
                ),
                within(
                    net as int,
                    LIMIT + n_connection * 10_000_000_000_000_000_000_000_000,
                ),
            decreases INPUTS - n_connection,
        {
            let weight = self.get_weight(layer, neuron, n_connection);
            let value = input[n_connection];
            proof {
                lemma_product_within(
                    value as int,
                    weight as int,
                    10_000_000_000_000_000_000,
                    LIMIT as int,
                );
                lemma_quotient_within(
                    value * weight,
                    ONE as int,
                    10_000_000_000_000_000_000_000_000,
                );
            }
            net = net + floor_div(value as i128 * weight as i128, ONE as i128);
            n_connection = n_connection + 1;
        }
        NeuralNetwork::activation(net)
    }

    /// The action that the network chooses for the observation `input`: the
    /// outputs of the two neurons of the second layer. Both layers read
    /// `input`; what the first layer puts out is worked out and dropped.
    #[verifier::rlimit(40)]
    pub fn calculate_output(&self, input: [i64; 2]) -> (output: [i64; 2])
        requires
            self@.wf(),
        ensures
            output@.map_values(|v: i64| v as int) == self@.output(pair_model(input)),
            0 < output[0] < ONE,
            0 < output[1] < ONE,
    {
        let mut neurons: Vec<Vec<i64>> = vec![vec![0, 0, 0], vec![0, 0]];
        let mut n_layer: usize = 0;
        while n_layer < self.layers_count()
            invariant
                self@.wf(),
                0 <= n_layer <= LAYERS,
                neurons@.len() == LAYERS,
                forall|l: int| 0 <= l < LAYERS ==> (#[trigger] neurons@[l])@.len() == layer_width(l),
                forall|l: int, n: int|
                    0 <= l < n_layer && 0 <= n < layer_width(l) ==> (#[trigger] neurons@[l]@[n])
                        == self@.neuron_output(l, n, pair_model(input)),
            decreases LAYERS - n_layer,
        {
            let mut n_neuron: usize = 0;
            while n_neuron < self.neurons_count(n_layer)
                invariant
                    self@.wf(),
                    0 <= n_layer < LAYERS,
                    0 <= n_neuron <= layer_width(n_layer as int),
                    neurons@.len() == LAYERS,
                    forall|l: int|
                        0 <= l < LAYERS ==> (#[trigger] neurons@[l])@.len() == layer_width(l),
                    forall|l: int, n: int|
                        0 <= l < n_layer && 0 <= n < layer_width(l) ==> (
                        #[trigger] neurons@[l]@[n]) == self@.neuron_output(
                            l,
                            n,
                            pair_model(input),
                        ),
                    forall|n: int|
                        0 <= n < n_neuron ==> (#[trigger] neurons@[n_layer as int]@[n])
                            == self@.neuron_output(n_layer as int, n, pair_model(input)),
                decreases layer_width(n_layer as int) - n_neuron,
            {
                let out = self.neuron_value(n_layer, n_neuron, &input);
                neurons[n_layer][n_neuron] = out;
                n_neuron = n_neuron + 1;
            }
            n_layer = n_layer + 1;
        }
        let output = [neurons[1][0], neurons[1][1]];
        proof {
            lemma_squash_range(
                self@.partial_input(1, 0, pair_model(input), INPUTS as int),
            );
            lemma_squash_range(
                self@.partial_input(1, 1, pair_model(input), INPUTS as int),
            );
        }
        output
    }

    /// Moves every weight by `rate` times a fresh draw from `-ONE..=ONE`.
    /// No bias changes.
    #[verifier::rlimit(40)]
    pub fn mutate(&mut self, rate: i64, rng: &mut StdRng)
        requires
            old(self)@.wf(),
        ensures
            final(self)@.wf(),
            final(self)@.mutated_from(old(self)@, rate as int),
            rate == 0 ==> final(self)@ == old(self)@,
    {
        proof {
            self@.lemma_layer(0);
            self@.lemma_layer(1);
            self.lemma_storage(0, 0);
            self.lemma_storage(1, 0);
        }
        let ghost before = self@;
        let w0 = nudge_grid(&self.weights[0], rate, rng);
        let w1 = nudge_grid(&self.weights[1], rate, rng);
        self.weights = vec![w0, w1];
        proof {
            let after = self@;
            lemma_mutated_shaped(after, before, rate as int);
            assert forall|l: int| 0 <= l < LAYERS implies row_within(
                #[trigger] after.biases[l],
                LIMIT as int,
            ) by {
                before.lemma_layer(l);
            }
            after.lemma_from_layers(LIMIT as int);
            if rate == 0 {
                lemma_mutation_at_rate_zero(after, before);
            }
        }
    }

    /// Replaces every weight by `(1 - alpha) * weight + alpha * other's
    /// weight`, with the one `alpha` for the whole network. No bias changes.
    #[verifier::rlimit(40)]
    pub fn crossover(&mut self, other: &NeuralNetwork, alpha: i64)
        requires
            old(self)@.wf(),
            other@.wf(),
        ensures
            final(self)@ == old(self)@.crossed(other@, alpha as int),
            final(self)@.wf(),
    {
        proof {
            self@.lemma_layer(0);
            self@.lemma_layer(1);
            other@.lemma_layer(0);
            other@.lemma_layer(1);
            self.lemma_storage(0, 0);
            self.lemma_storage(1, 0);
            other.lemma_storage(0, 0);
            other.lemma_storage(1, 0);
        }
        let ghost before = self@;
        let w0 = blend_grids(&self.weights[0], &other.weights[0], alpha);
        let w1 = blend_grids(&self.weights[1], &other.weights[1], alpha);
        self.weights = vec![w0, w1];
        proof {
            let after = self@;
            assert(after.weights =~= before.crossed(other@, alpha as int).weights);
            lemma_crossed_wf(before, other@, alpha as int);
        }
    }

    /// What the network wins on one cell of the square of heights.
    fn cell_score(&self, i: i64, j: i64) -> (reward: i64)
        requires
            self@.wf(),
            0 <= i < GRID_SIDE,
            0 <= j < GRID_SIDE,
        ensures
            reward == self@.cell_reward(i as int, j as int),
            0 <= reward <= ONE,
    {
        let h_self: i64 = i * GRID_STEP;
        let h_other: i64 = j * GRID_STEP;
        let input = [h_self, h_other];
        let output = self.calculate_output(input);
        proof {
            assert(pair_model(input) =~= seq![h_self as int, h_other as int]);
            let action = self@.output(pair_model(input));
            assert(action[0] == output[0]);
            assert(action[1] == output[1]);
        }
        NeuralNetwork::eval_shot(output[0], output[1], h_self, h_other)
    }

    /// What the network wins on the square of heights: for every pair of
    /// tenths from 0 to 1, the reward of the shot that it chooses there.
    pub fn score(&self) -> (score: i64)
        requires
            self@.wf(),
        ensures
            score == self@.score(),
            0 <= score <= TOP_SCORE,
    {
        proof {
            reveal(NetModel::score);
        }
        let mut score: i64 = 0;
        let mut i: i64 = 0;
        while i < GRID_SIDE
            invariant
                self@.wf(),
                0 <= i <= GRID_SIDE,
                score == self@.score_upto(i * GRID_SIDE),
                0 <= score <= i * GRID_SIDE * ONE,
            decreases GRID_SIDE - i,
        {
            let mut j: i64 = 0;
            while j < GRID_SIDE
                invariant
                    self@.wf(),
                    0 <= i < GRID_SIDE,
                    0 <= j <= GRID_SIDE,
                    score == self@.score_upto(i * GRID_SIDE + j),
                    0 <= score <= (i * GRID_SIDE + j) * ONE,
                decreases GRID_SIDE - j,
            {
                let shot_score = self.cell_score(i, j);
                proof {
                    let cells = i * GRID_SIDE + j + 1;
                    assert((cells - 1) / (GRID_SIDE as int) == i);
                    assert((cells - 1) % (GRID_SIDE as int) == j);
                    assert(self@.score_upto(cells) == self@.score_upto(cells - 1)
                        + self@.cell_reward(i as int, j as int));
                }
                score = score + shot_score;
                j = j + 1;
            }
            i = i + 1;
        }
        score
    }
}

impl NeuralNetwork {
    /// The stored weights and biases.
    pub fn parts(&self) -> (parts: (&Vec<Vec<Vec<i64>>>, &Vec<Vec<i64>>))
        ensures
            stack_model(*parts.0) == self@.weights,
            grid_model(*parts.1) == self@.biases,
    {
        (&self.weights, &self.biases)
    }

    /// Whether `other` has the same weights and biases.
    #[verifier::rlimit(40)]
    pub fn same_as(&self, other: &NeuralNetwork) -> (same: bool)
        requires
            self@.wf(),
            other@.wf(),
        ensures
            same == (self@ == other@),
    {
        let mut n_layer: usize = 0;
        while n_layer < LAYERS
            invariant
                self@.wf(),
                other@.wf(),
                0 <= n_layer <= LAYERS,
                forall|l: int|
                    0 <= l < n_layer ==> #[trigger] self@.weights[l] == other@.weights[l],
                forall|l: int| 0 <= l < n_layer ==> #[trigger] self@.biases[l] == other@.biases[l],
            decreases LAYERS - n_layer,
        {
            let width = self.neurons_count(n_layer);
            let mut n_neuron: usize = 0;
            while n_neuron < width
                invariant
                    self@.wf(),
                    other@.wf(),
                    0 <= n_layer < LAYERS,
                    width == layer_width(n_layer as int),
                    0 <= n_neuron <= width,
                    forall|n: int|
                        0 <= n < n_neuron ==> #[trigger] self@.weights[n_layer as int][n]
                            == other@.weights[n_layer as int][n],
                    forall|n: int|
                        0 <= n < n_neuron ==> #[trigger] self@.biases[n_layer as int][n]
                            == other@.biases[n_layer as int][n],
                decreases width - n_neuron,
            {
                if self.get_bias(n_layer, n_neuron) != other.get_bias(n_layer, n_neuron) {
                    return false;
                }
                if self.get_weight(n_layer, n_neuron, 0) != other.get_weight(n_layer, n_neuron, 0)
                    || self.get_weight(n_layer, n_neuron, 1) != other.get_weight(
                    n_layer,
                    n_neuron,
                    1,
                ) {
                    return false;
                }
                assert(self@.weights[n_layer as int][n_neuron as int]
                    =~= other@.weights[n_layer as int][n_neuron as int]);
                n_neuron = n_neuron + 1;
            }
            proof {
                self@.lemma_layer(n_layer as int);
                other@.lemma_layer(n_layer as int);
            }
            n_layer = n_layer + 1;
        }
        proof {
            assert(self@.weights =~= other@.weights);
            assert(self@.biases =~= other@.biases);
        }
        true
    }
}

} // verus!
