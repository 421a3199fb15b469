//! The evolutionary search: a population of networks is scored, and the next
//! one is bred from it by roulette selection, crossover and mutation.
use crate::fixed::{floor_div, within, ONE};
use crate::network::{layer_width, NetModel, NeuralNetwork, LAYERS, TOP_SCORE};
use crate::random::draw;
use rand::rngs::StdRng;
use vstd::prelude::*;

verus! {

/// The smallest spin of the roulette wheel: a hundredth.
pub const SPIN_MIN: i64 = 10_000;

/// What an agent holds.
pub struct AgentModel {
    pub net: NetModel,
    pub score: int,
    pub fitness: int,
}

impl AgentModel {
    /// The network is well formed, the score is one that a network can
    /// reach, and the fitness is a share of the whole.
    pub open spec fn wf(self) -> bool {
        &&& self.net.wf()
        &&& 0 <= self.score <= TOP_SCORE
        &&& 0 <= self.fitness <= ONE
    }
}

/// One candidate of the search: a network, what it scored and its share of
/// what the whole population scored.
#[derive(Debug)]
pub struct Agent {
    net: NeuralNetwork,
    score: i64,
    fitness: i64,
}

impl View for Agent {
    type V = AgentModel;

    closed spec fn view(&self) -> AgentModel {
        AgentModel { net: self.net@, score: self.score as int, fitness: self.fitness as int }
    }
}

impl Clone for Agent {
    /// An agent with the same network, score and fitness.
    fn clone(&self) -> (copy: Self)
        ensures
            copy@ == self@,
    {
        Agent { net: self.net.clone(), score: self.score, fitness: self.fitness }
    }
}

impl Agent {
    /// An agent that has not been scored yet.
    pub fn new(net: NeuralNetwork) -> (agent: Self)
        ensures
            agent@ == (AgentModel { net: net@, score: 0, fitness: 0 }),
    {
        Agent { net, score: 0, fitness: 0 }
    }

    /// An agent with a score and a fitness that are already known.
    pub fn rated(net: NeuralNetwork, score: i64, fitness: i64) -> (agent: Self)
        requires
            net@.wf(),
            0 <= score <= TOP_SCORE,
            0 <= fitness <= ONE,
        ensures
            agent@ == (AgentModel { net: net@, score: score as int, fitness: fitness as int }),
            agent@.wf(),
    {
        Agent { net, score, fitness }
    }

    /// The agent's network.
    pub fn net(&self) -> (net: &NeuralNetwork)
        ensures
            net@ == self@.net,
    {
        &self.net
    }

    /// What the network scored when it was last evaluated.
    pub fn score(&self) -> (score: i64)
        ensures
            score == self@.score,
    {
        self.score
    }

    /// The agent's share of what the whole population scored.
    pub fn fitness(&self) -> (fitness: i64)
        ensures
            fitness == self@.fitness,
    {
        self.fitness
    }
}

/// The models of a list of agents.
pub open spec fn agents_model(agents: Vec<Agent>) -> Seq<AgentModel> {
    Seq::new(agents@.len(), |i: int| agents@[i]@)
}

/// Whether every agent of the list is well formed.
pub open spec fn all_wf(agents: Seq<AgentModel>) -> bool {
    forall|i: int| 0 <= i < agents.len() ==> (#[trigger] agents[i]).wf()
}

/// What the first `count` networks score together.
pub open spec fn score_sum(agents: Seq<AgentModel>, count: int) -> int
    decreases count,
{
    if count <= 0 {
        0
    } else {
        score_sum(agents, count - 1) + agents[count - 1].net.score()
    }
}

/// The fitness of the first `count` agents together.
pub open spec fn fitness_sum(agents: Seq<AgentModel>, count: int) -> int
    decreases count,
{
    if count <= 0 {
        0
    } else {
        fitness_sum(agents, count - 1) + agents[count - 1].fitness
    }
}

/// The share of `score` in `total`; where nothing was scored at all, every
/// one of the `count` agents has the same share.
pub open spec fn fitness_share(score: int, total: int, count: int) -> int {
    if total > 0 {
        score * ONE / total
    } else {
        (ONE as int) / count
    }
}

/// The population after it has been evaluated: the networks are the same,
/// every score is what the network wins on the square of heights, and every
/// fitness is the share of that score in the sum of all.
pub open spec fn evaluated(agents: Seq<AgentModel>) -> Seq<AgentModel> {
    Seq::new(
        agents.len(),
        |i: int|
            AgentModel {
                net: agents[i].net,
                score: agents[i].net.score(),
                fitness: fitness_share(
                    agents[i].net.score(),
                    score_sum(agents, agents.len() as int),
                    agents.len() as int,
                ),
            },
    )
}

/// Whether `index` is where the wheel stops after a spin of `spin`: the
/// first agent at which the fitness summed up so far reaches the spin, or the
/// last agent if the whole sum falls short of it.
pub open spec fn is_roulette_stop(agents: Seq<AgentModel>, spin: int, index: int) -> bool {
    &&& 0 <= index < agents.len()
    &&& forall|j: int| 0 <= j < index ==> #[trigger] fitness_sum(agents, j + 1) < spin
    &&& index < agents.len() - 1 ==> fitness_sum(agents, index + 1) >= spin
}

/// Whether `a` ranks above `b`: by fitness, and among agents of one fitness
/// by score. Fitness is a share rounded to millionths, so two scores can
/// come to one fitness; the score then tells them apart.
pub open spec fn outranks(a: AgentModel, b: AgentModel) -> bool {
    a.fitness > b.fitness || (a.fitness == b.fitness && a.score > b.score)
}

/// Whether `index` is the first agent that no other agent outranks: none has
/// a higher fitness.
pub open spec fn is_fittest(agents: Seq<AgentModel>, index: int) -> bool {
    &&& 0 <= index < agents.len()
    &&& forall|j: int| 0 <= j < agents.len() ==> !outranks(#[trigger] agents[j], agents[index])
    &&& forall|j: int| 0 <= j < index ==> outranks(agents[index], #[trigger] agents[j])
}

/// Whether no agent has scored more than the one at `index`.
pub open spec fn scores_most(agents: Seq<AgentModel>, index: int) -> bool {
    &&& 0 <= index < agents.len()
    &&& forall|j: int| 0 <= j < agents.len() ==> (#[trigger] agents[j]).score <= agents[index].score
}

/// Whether every bias of `net` is within one of zero, as it was drawn.
pub open spec fn biases_fresh(net: NetModel) -> bool {
    forall|l: int, n: int|
        0 <= l < LAYERS && 0 <= n < layer_width(l) ==> within(
            #[trigger] net.biases[l][n],
            ONE as int,
        )
}

/// Whether every agent of the list has its biases as they were drawn.
pub open spec fn all_biases_fresh(agents: Seq<AgentModel>) -> bool {
    forall|i: int| 0 <= i < agents.len() ==> biases_fresh((#[trigger] agents[i]).net)
}

/// Whether some spin of `SPIN_MIN..=ONE` stops the wheel at `index`.
pub open spec fn can_be_chosen(agents: Seq<AgentModel>, index: int) -> bool {
    exists|spin: int| SPIN_MIN <= spin <= ONE && #[trigger] is_roulette_stop(agents, spin, index)
}

/// Whether `child` can come out of one round of breeding from `parents`: it
/// is a copy of a parent at which the wheel can stop, whose network was
/// crossed with that of another such parent at some `alpha` of `0..=ONE` and
/// then mutated at `rate`.
pub open spec fn is_offspring(child: AgentModel, parents: Seq<AgentModel>, rate: int) -> bool {
    exists|first: int, second: int, alpha: int|
        #![trigger parents[first].net.crossed(parents[second].net, alpha)]
        {
            &&& can_be_chosen(parents, first)
            &&& can_be_chosen(parents, second)
            &&& 0 <= alpha <= ONE
            &&& child.score == parents[first].score
            &&& child.fitness == parents[first].fitness
            &&& child.net.mutated_from(parents[first].net.crossed(parents[second].net, alpha), rate)
        }
}

/// Whether `net` can come out of one round of breeding from `parents`: the
/// network of a parent at which the wheel can stop, crossed with that of
/// another such parent at some `alpha` of `0..=ONE` and then mutated at
/// `rate`.
pub open spec fn net_bred_from(net: NetModel, parents: Seq<AgentModel>, rate: int) -> bool {
    exists|first: int, second: int, alpha: int|
        #![trigger parents[first].net.crossed(parents[second].net, alpha)]
        {
            &&& can_be_chosen(parents, first)
            &&& can_be_chosen(parents, second)
            &&& 0 <= alpha <= ONE
            &&& net.mutated_from(parents[first].net.crossed(parents[second].net, alpha), rate)
        }
}

/// Whether the network of every agent of `children` can come out of one
/// round of breeding from `parents`.
pub open spec fn all_bred(children: Seq<AgentModel>, parents: Seq<AgentModel>, rate: int) -> bool {
    forall|k: int|
        0 <= k < children.len() ==> net_bred_from((#[trigger] children[k]).net, parents, rate)
}

/// Whether `agents` can be the population that a search ends with, when it
/// starts from `pop_size` random agents, breeds `generations` times at
/// `rate` and evaluates what it then has: the agents are evaluated, their
/// biases are as they were drawn, and they are as many as were drawn or, once
/// bred, one less. Without a generation their weights are as they were
/// drawn too; after one or more, their networks were bred from some
/// evaluated population of parents.
pub open spec fn is_last_population(
    agents: Seq<AgentModel>,
    pop_size: int,
    rate: int,
    generations: int,
) -> bool {
    &&& agents.len() == (if generations == 0 {
        pop_size
    } else {
        pop_size - 1
    })
    &&& all_wf(agents)
    &&& evaluated(agents) == agents
    &&& all_biases_fresh(agents)
    &&& generations == 0 ==> all_fresh(agents)
    &&& generations > 0 ==> exists|parents: Seq<AgentModel>|
        {
            &&& parents.len() == (if generations == 1 {
                pop_size
            } else {
                pop_size - 1
            })
            &&& all_wf(parents)
            &&& evaluated(parents) == parents
            &&& #[trigger] all_bred(agents, parents, rate)
        }
}

/// A child has the biases of its first parent, so biases that were fresh in
/// the parents are fresh in the child, and its network is one bred from the
/// parents.
pub proof fn lemma_offspring(child: AgentModel, parents: Seq<AgentModel>, rate: int)
    requires
        is_offspring(child, parents, rate),
    ensures
        net_bred_from(child.net, parents, rate),
        all_biases_fresh(parents) ==> biases_fresh(child.net),
{
    let (first, second, alpha) = choose|first: int, second: int, alpha: int|
        #![trigger parents[first].net.crossed(parents[second].net, alpha)]
        {
            &&& can_be_chosen(parents, first)
            &&& can_be_chosen(parents, second)
            &&& 0 <= alpha <= ONE
            &&& child.score == parents[first].score
            &&& child.fitness == parents[first].fitness
            &&& child.net.mutated_from(parents[first].net.crossed(parents[second].net, alpha), rate)
        };
    lemma_chosen_in_range(parents, first);
    assert(child.net.biases == parents[first].net.biases);
    if all_biases_fresh(parents) {
        assert(biases_fresh(parents[first].net));
    }
}

/// Children keep the biases of their parents fresh, and their networks are
/// bred from the parents.
pub proof fn lemma_all_offspring(children: Seq<AgentModel>, parents: Seq<AgentModel>, rate: int)
    requires
        all_offspring(children, parents, rate),
    ensures
        all_bred(children, parents, rate),
        all_biases_fresh(parents) ==> all_biases_fresh(children),
{
    assert forall|k: int| 0 <= k < children.len() implies net_bred_from(
        (#[trigger] children[k]).net,
        parents,
        rate,
    ) && (all_biases_fresh(parents) ==> biases_fresh(children[k].net)) by {
        lemma_offspring(children[k], parents, rate);
    }
}

/// Evaluating a population touches no network: what was bred stays bred,
/// and what was fresh stays fresh.
pub proof fn lemma_evaluated_keeps_nets(agents: Seq<AgentModel>, parents: Seq<AgentModel>, rate: int)
    ensures
        all_bred(agents, parents, rate) ==> all_bred(evaluated(agents), parents, rate),
        all_biases_fresh(agents) ==> all_biases_fresh(evaluated(agents)),
        all_fresh(agents) ==> all_fresh(evaluated(agents)),
{
    let after = evaluated(agents);
    assert forall|k: int| 0 <= k < after.len() implies (#[trigger] after[k]).net
        == agents[k].net by {}
    if all_bred(agents, parents, rate) {
        assert forall|k: int| 0 <= k < after.len() implies net_bred_from(
            (#[trigger] after[k]).net,
            parents,
            rate,
        ) by {
            assert(net_bred_from(agents[k].net, parents, rate));
        }
    }
    if all_biases_fresh(agents) {
        assert forall|k: int| 0 <= k < after.len() implies biases_fresh(
            (#[trigger] after[k]).net,
        ) by {
            assert(biases_fresh(agents[k].net));
        }
    }
    if all_fresh(agents) {
        assert forall|k: int| 0 <= k < after.len() implies (#[trigger] after[k]).net.bounded_by(
            ONE as int,
        ) by {
            assert(agents[k].net.bounded_by(ONE as int));
        }
    }
}

/// A freshly drawn population has fresh biases.
pub proof fn lemma_fresh_biases(agents: Seq<AgentModel>)
    requires
        all_fresh(agents),
    ensures
        all_biases_fresh(agents),
{
    assert forall|i: int| 0 <= i < agents.len() implies biases_fresh((#[trigger] agents[i]).net) by {
        assert(agents[i].net.bounded_by(ONE as int));
    }
}

/// A larger score has no smaller share.
pub proof fn lemma_share_grows(low: int, high: int, total: int, count: int)
    requires
        low <= high,
    ensures
        fitness_share(low, total, count) <= fitness_share(high, total, count),
{
    if total > 0 {
        assert(low * ONE <= high * ONE) by (nonlinear_arith)
            requires
                low <= high,
        ;
        vstd::arithmetic::div_mod::lemma_div_is_ordered(low * ONE, high * ONE, total);
    }
}

/// In an evaluated population no agent has scored more than the fittest.
pub proof fn lemma_fittest_scores_most(agents: Seq<AgentModel>, index: int)
    requires
        evaluated(agents) == agents,
        is_fittest(agents, index),
    ensures
        scores_most(agents, index),
{
    let total = score_sum(agents, agents.len() as int);
    let count = agents.len() as int;
    assert forall|j: int| 0 <= j < agents.len() implies (#[trigger] agents[j]).score
        <= agents[index].score by {
        assert(agents[j] == evaluated(agents)[j]);
        assert(agents[index] == evaluated(agents)[index]);
        if agents[j].score > agents[index].score {
            lemma_share_grows(agents[index].score, agents[j].score, total, count);
            assert(outranks(agents[j], agents[index]));
        }
    }
}

/// The wheel stops at an agent of the population.
pub proof fn lemma_chosen_in_range(agents: Seq<AgentModel>, index: int)
    requires
        can_be_chosen(agents, index),
    ensures
        0 <= index < agents.len(),
{
}

/// The wheel stops at one agent only: a spin decides.
pub proof fn lemma_roulette_stop_unique(agents: Seq<AgentModel>, spin: int, a: int, b: int)
    requires
        is_roulette_stop(agents, spin, a),
        is_roulette_stop(agents, spin, b),
    ensures
        a == b,
{
}

/// Only one agent is the fittest.
pub proof fn lemma_fittest_unique(agents: Seq<AgentModel>, a: int, b: int)
    requires
        is_fittest(agents, a),
        is_fittest(agents, b),
    ensures
        a == b,
{
    if a < b {
        assert(outranks(agents[b], agents[a]));
        assert(!outranks(agents[b], agents[a]));
    }
    if b < a {
        assert(outranks(agents[a], agents[b]));
        assert(!outranks(agents[a], agents[b]));
    }
}

/// The sum of what the first `count` of well-formed agents scored lies
/// between nothing and the top score for each.
pub proof fn lemma_score_sum_bounds(agents: Seq<AgentModel>, count: int)
    requires
        0 <= count <= agents.len(),
    ensures
        0 <= score_sum(agents, count) <= count * TOP_SCORE,
    decreases count,
{
    if count > 0 {
        lemma_score_sum_bounds(agents, count - 1);
        agents[count - 1].net.lemma_score_range();
    }
}

/// The fitness of well-formed agents never sums to less than nothing, and
/// grows with the number of agents summed.
pub proof fn lemma_fitness_sum_grows(agents: Seq<AgentModel>, few: int, many: int)
    requires
        all_wf(agents),
        0 <= few <= many <= agents.len(),
    ensures
        0 <= fitness_sum(agents, few) <= fitness_sum(agents, many),
    decreases many,
{
    if few < many {
        lemma_fitness_sum_grows(agents, few, many - 1);
    } else if few > 0 {
        lemma_fitness_sum_grows(agents, few - 1, few - 1);
    }
}

/// A share of a total that is at least the score, or an even share, is a
/// fraction of one.
pub proof fn lemma_fitness_share_bounds(score: int, total: int, count: int)
    requires
        0 <= score <= total,
        1 <= count,
    ensures
        0 <= fitness_share(score, total, count) <= ONE,
{
    if total > 0 {
        assert(0 <= score * ONE / total <= ONE) by (nonlinear_arith)
            requires
                0 <= score <= total,
                0 < total,
        ;
    }
}

/// The share of `score` in `total`, or an even share where nothing was scored
/// at all.
pub fn share(score: i64, total: i128, count: usize) -> (fitness: i64)
    requires
        0 <= score <= total,
        1 <= count,
    ensures
        fitness == fitness_share(score as int, total as int, count as int),
        0 <= fitness <= ONE,
{
    proof {
        lemma_fitness_share_bounds(score as int, total as int, count as int);
    }
    if total > 0 {
        floor_div(score as i128 * ONE as i128, total) as i64
    } else {
        (ONE as u64 / count as u64) as i64
    }
}

/// Where the wheel stops after `spin`.
pub fn roulette_index(agents: &Vec<Agent>, spin: i64) -> (index: usize)
    requires
        agents@.len() > 0,
        all_wf(agents_model(*agents)),
    ensures
        is_roulette_stop(agents_model(*agents), spin as int, index as int),
{
    let ghost models = agents_model(*agents);
    let mut selected_index: usize = 0;
    let mut r: i128 = spin as i128;
    loop
        invariant
            models == agents_model(*agents),
            all_wf(models),
            0 <= selected_index < agents@.len(),
            r == spin - fitness_sum(models, selected_index as int),
            forall|j: int| 0 <= j < selected_index ==> #[trigger] fitness_sum(models, j + 1) < spin,
            selected_index > 0 ==> r > 0,
        decreases agents@.len() - selected_index,
    {
        if selected_index == agents.len() - 1 {
            return selected_index;
        }
        proof {
            lemma_fitness_sum_grows(models, 0, selected_index as int);
        }
        r = r - agents[selected_index].fitness as i128;
        if r <= 0 {
            return selected_index;
        }
        selected_index = selected_index + 1;
    }
}

/// The first agent that no other agent outranks: it has the highest
/// fitness, and among the agents of that fitness the highest score.
pub fn fittest(agents: &Vec<Agent>) -> (index: usize)
    requires
        agents@.len() > 0,
    ensures
        is_fittest(agents_model(*agents), index as int),
{
    let mut best: usize = 0;
    let mut i: usize = 1;
    while i < agents.len()
        invariant
            1 <= i <= agents@.len(),
            0 <= best < i,
            forall|j: int| 0 <= j < i ==> !outranks((#[trigger] agents@[j])@, agents@[best as int]@),
            forall|j: int|
                0 <= j < best ==> outranks(agents@[best as int]@, (#[trigger] agents@[j])@),
        decreases agents@.len() - i,
    {
        let better = agents[i].fitness > agents[best].fitness || (agents[i].fitness
            == agents[best].fitness && agents[i].score > agents[best].score);
        if better {
            best = i;
        }
        i = i + 1;
    }
    proof {
        let models = agents_model(*agents);
        assert forall|j: int| 0 <= j < models.len() implies !outranks(
            #[trigger] models[j],
            models[best as int],
        ) by {
            assert(!outranks(agents@[j]@, agents@[best as int]@));
        }
        assert forall|j: int| 0 <= j < best implies outranks(
            models[best as int],
            #[trigger] models[j],
        ) by {
            assert(outranks(agents@[best as int]@, agents@[j]@));
        }
    }
    best
}

/// What a search holds.
pub struct SearchModel {
    pub pop_size: int,
    pub learning_rate: int,
    pub current_gen: int,
    pub agents: Seq<AgentModel>,
}

/// The evolutionary search.
#[derive(Debug)]
pub struct GeneticAlgorithm {
    pop_size: usize,
    learning_rate: i64,
    current_gen: u32,
    agents: Vec<Agent>,
}

impl View for GeneticAlgorithm {
    type V = SearchModel;

    closed spec fn view(&self) -> SearchModel {
        SearchModel {
            pop_size: self.pop_size as int,
            learning_rate: self.learning_rate as int,
            current_gen: self.current_gen as int,
            agents: agents_model(self.agents),
        }
    }
}

/// Whether every network of the list has all its numbers within `ONE`, as a
/// freshly drawn one has.
pub open spec fn all_fresh(agents: Seq<AgentModel>) -> bool {
    forall|i: int| 0 <= i < agents.len() ==> (#[trigger] agents[i]).net.bounded_by(ONE as int)
}

/// Whether every agent of `children` can come out of one round of breeding
/// from `parents`.
pub open spec fn all_offspring(
    children: Seq<AgentModel>,
    parents: Seq<AgentModel>,
    rate: int,
) -> bool {
    forall|k: int| 0 <= k < children.len() ==> is_offspring(#[trigger] children[k], parents, rate)
}

/// An evaluated population is well formed when its networks are.
pub proof fn lemma_evaluated_wf(agents: Seq<AgentModel>)
    requires
        forall|i: int| 0 <= i < agents.len() ==> (#[trigger] agents[i]).net.wf(),
    ensures
        all_wf(evaluated(agents)),
        evaluated(agents).len() == agents.len(),
        evaluated(evaluated(agents)) == evaluated(agents),
{
    let after = evaluated(agents);
    let count = agents.len() as int;
    lemma_score_sum_bounds(agents, count);
    assert forall|i: int| 0 <= i < after.len() implies (#[trigger] after[i]).wf() by {
        agents[i].net.lemma_score_range();
        lemma_score_part(agents, i, count);
        lemma_fitness_share_bounds(agents[i].net.score(), score_sum(agents, count), count);
    }
    lemma_score_sum_same_nets(agents, after, count);
}

/// A quotient by a positive divisor, times the divisor, falls short of the
/// dividend by less than the divisor.
proof fn lemma_quotient_brackets(a: int, d: int)
    by (nonlinear_arith)
    requires
        0 < d,
    ensures
        (a / d) * d <= a < (a / d) * d + d,
{
}

/// The shares of the first `count` agents of an evaluated population, taken
/// times the sum of all scores, fall short of the scores of those agents by
/// less than that sum for each agent; where nothing was scored, they are
/// `count` even shares.
proof fn lemma_shares_upto(agents: Seq<AgentModel>, count: int)
    requires
        0 <= count <= agents.len(),
    ensures
        ({
            let total = score_sum(agents, agents.len() as int);
            let shares = fitness_sum(evaluated(agents), count);
            let scores = score_sum(agents, count);
            &&& total > 0 ==> shares * total <= scores * ONE <= shares * total + count * total
                - count
            &&& total <= 0 ==> shares == count * ((ONE as int) / (agents.len() as int))
        }),
    decreases count,
{
    let total = score_sum(agents, agents.len() as int);
    if count > 0 {
        lemma_shares_upto(agents, count - 1);
        let score = agents[count - 1].net.score();
        let before = fitness_sum(evaluated(agents), count - 1);
        let share = evaluated(agents)[count - 1].fitness;
        if total > 0 {
            lemma_quotient_brackets(score * ONE, total);
            assert((before + share) * total == before * total + share * total)
                by (nonlinear_arith);
            assert((score_sum(agents, count - 1) + score) * ONE == score_sum(agents, count - 1)
                * ONE + score * ONE) by (nonlinear_arith);
            assert(count * total == (count - 1) * total + total) by (nonlinear_arith);
        } else {
            let even = (ONE as int) / (agents.len() as int);
            assert(count * even == (count - 1) * even + even) by (nonlinear_arith);
        }
    } else {
        assert(0 * total == 0) by (nonlinear_arith);
    }
}

/// The shares of an evaluated population add up to one, or fall short of it
/// by less than a millionth for each agent: the wheel may be spun further
/// than the shares reach, and then stops at the last agent.
pub proof fn lemma_shares_add_up(agents: Seq<AgentModel>)
    requires
        agents.len() > 0,
    ensures
        ONE - agents.len() < fitness_sum(evaluated(agents), agents.len() as int) <= ONE,
{
    let count = agents.len() as int;
    let total = score_sum(agents, count);
    let shares = fitness_sum(evaluated(agents), count);
    lemma_shares_upto(agents, count);
    if total > 0 {
        assert(shares <= ONE) by (nonlinear_arith)
            requires
                total > 0,
                shares * total <= total * ONE,
        ;
        assert(shares > ONE - count) by (nonlinear_arith)
            requires
                total > 0,
                count > 0,
                total * ONE <= shares * total + count * total - count,
        ;
    } else {
        lemma_quotient_brackets(ONE as int, count);
        assert(count * ((ONE as int) / count) == ((ONE as int) / count) * count)
            by (nonlinear_arith);
    }
}

/// What one network scored is part of what all of them scored.
proof fn lemma_score_part(agents: Seq<AgentModel>, i: int, count: int)
    requires
        0 <= i < count <= agents.len(),
    ensures
        0 <= agents[i].net.score() <= score_sum(agents, count),
    decreases count,
{
    agents[count - 1].net.lemma_score_range();
    if i < count - 1 {
        lemma_score_part(agents, i, count - 1);
    } else {
        lemma_score_sum_bounds(agents, count - 1);
    }
}

/// Two lists with the same networks score the same in sum.
proof fn lemma_score_sum_same_nets(a: Seq<AgentModel>, b: Seq<AgentModel>, count: int)
    requires
        0 <= count <= a.len(),
        a.len() == b.len(),
        forall|i: int| 0 <= i < a.len() ==> (#[trigger] a[i]).net == b[i].net,
    ensures
        score_sum(a, count) == score_sum(b, count),
    decreases count,
{
    if count > 0 {
        lemma_score_sum_same_nets(a, b, count - 1);
    }
}

impl GeneticAlgorithm {
    /// A search for populations of `pop_size` agents that mutates at
    /// `learning_rate`. It has no agents yet.
    pub fn new(pop_size: usize, learning_rate: i64) -> (search: Self)
        ensures
            search@ == (SearchModel {
                pop_size: pop_size as int,
                learning_rate: learning_rate as int,
                current_gen: 0,
                agents: Seq::empty(),
            }),
    {
        let search = Self { pop_size, learning_rate, current_gen: 0, agents: Vec::new() };
        assert(search@.agents =~= Seq::empty());
        search
    }

    /// A search that goes on from a population that is already there.
    pub fn with_agents(pop_size: usize, learning_rate: i64, agents: Vec<Agent>) -> (search: Self)
        ensures
            search@ == (SearchModel {
                pop_size: pop_size as int,
                learning_rate: learning_rate as int,
                current_gen: 0,
                agents: agents_model(agents),
            }),
    {
        Self { pop_size, learning_rate, current_gen: 0, agents }
    }

    /// The size that the first population is made with.
    pub fn pop_size(&self) -> (size: usize)
        ensures
            size == self@.pop_size,
    {
        self.pop_size
    }

    /// The rate at which children are mutated.
    pub fn learning_rate(&self) -> (rate: i64)
        ensures
            rate == self@.learning_rate,
    {
        self.learning_rate
    }

    /// The number of generations bred so far.
    pub fn current_gen(&self) -> (generation: u32)
        ensures
            generation == self@.current_gen,
    {
        self.current_gen
    }

    /// The population.
    pub fn agents(&self) -> (agents: &Vec<Agent>)
        ensures
            agents_model(*agents) == self@.agents,
    {
        &self.agents
    }

    /// Replaces the population by `pop_size` agents with freshly drawn
    /// networks, none of them scored.
    pub fn init_random(&mut self, rng: &mut StdRng)
        ensures
            final(self)@.pop_size == old(self)@.pop_size,
            final(self)@.learning_rate == old(self)@.learning_rate,
            final(self)@.current_gen == old(self)@.current_gen,
            final(self)@.agents.len() == old(self)@.pop_size,
            all_wf(final(self)@.agents),
            all_fresh(final(self)@.agents),
            forall|i: int|
                0 <= i < final(self)@.agents.len() ==> (#[trigger] final(self)@.agents[i]).score == 0
                    && final(self)@.agents[i].fitness == 0,
    {
        let mut random_agents: Vec<Agent> = Vec::new();
        let mut made: usize = 0;
        while made < self.pop_size
            invariant
                0 <= made <= self.pop_size,
                random_agents@.len() == made,
                forall|i: int|
                    0 <= i < made ==> {
                        &&& (#[trigger] random_agents@[i])@.net.wf()
                        &&& random_agents@[i]@.net.bounded_by(ONE as int)
                        &&& random_agents@[i]@.score == 0
                        &&& random_agents@[i]@.fitness == 0
                    },
            decreases self.pop_size - made,
        {
            random_agents.push(Agent::new(NeuralNetwork::new(rng)));
            made = made + 1;
        }
        self.agents = random_agents;
        proof {
            let after = self@.agents;
            assert forall|i: int| 0 <= i < after.len() implies (#[trigger] after[i]).wf()
                && after[i].net.bounded_by(ONE as int) && after[i].score == 0 && after[i].fitness
                == 0 by {
            }
        }
    }

    /// Scores every network and gives every agent its share of the sum of
    /// the scores. Where the sum is zero the shares are even.
    #[verifier::rlimit(40)]
    pub fn calculate_fitness(&mut self)
        requires
            forall|i: int|
                0 <= i < old(self)@.agents.len() ==> (#[trigger] old(self)@.agents[i]).net.wf(),
        ensures
            final(self)@ == (SearchModel { agents: evaluated(old(self)@.agents), ..old(self)@ }),
            all_wf(final(self)@.agents),
    {
        let ghost before = self@.agents;
        let count = self.agents.len();
        let mut score_sum: i128 = 0;
        let mut i: usize = 0;
        while i < count
            invariant
                count == self.agents@.len(),
                before.len() == count,
                0 <= i <= count,
                self.pop_size == old(self).pop_size,
                self.learning_rate == old(self).learning_rate,
                self.current_gen == old(self).current_gen,
                forall|k: int| 0 <= k < count ==> (#[trigger] before[k]).net.wf(),
                forall|k: int| 0 <= k < count ==> (#[trigger] self.agents@[k])@.net == before[k].net,
                forall|k: int| 0 <= k < i ==> (#[trigger] self.agents@[k])@.score == before[k].net.score(),
                score_sum == self::score_sum(before, i as int),
                0 <= score_sum <= i * TOP_SCORE,
            decreases count - i,
        {
            proof {
                before[i as int].net.lemma_score_range();
            }
            let score = self.agents[i].net.score();
            self.agents[i].score = score;
            score_sum = score_sum + score as i128;
            i = i + 1;
        }
        let mut i: usize = 0;
        while i < count
            invariant
                count == self.agents@.len(),
                before.len() == count,
                0 <= i <= count,
                self.pop_size == old(self).pop_size,
                self.learning_rate == old(self).learning_rate,
                self.current_gen == old(self).current_gen,
                forall|k: int| 0 <= k < count ==> (#[trigger] before[k]).net.wf(),
                forall|k: int| 0 <= k < count ==> (#[trigger] self.agents@[k])@.net == before[k].net,
                forall|k: int|
                    0 <= k < count ==> (#[trigger] self.agents@[k])@.score == before[k].net.score(),
                forall|k: int|
                    0 <= k < i ==> (#[trigger] self.agents@[k])@.fitness == fitness_share(
                        before[k].net.score(),
                        self::score_sum(before, count as int),
                        count as int,
                    ),
                score_sum == self::score_sum(before, count as int),
                0 <= score_sum <= count * TOP_SCORE,
            decreases count - i,
        {
            let score = self.agents[i].score;
            proof {
                lemma_score_part(before, i as int, count as int);
            }
            let fitness = share(score, score_sum, count);
            self.agents[i].fitness = fitness;
            i = i + 1;
        }
        proof {
            assert(self@.agents =~= evaluated(before));
            lemma_evaluated_wf(before);
        }
    }

    /// Spins the wheel once and returns the agent at which it stops: the
    /// agents are passed in order, each taking its fitness off the spin,
    /// until nothing is left of it.
    pub fn select_parent(&self, rng: &mut StdRng) -> (parent: &Agent)
        requires
            self@.agents.len() > 0,
            all_wf(self@.agents),
        ensures
            exists|index: int|
                #[trigger] can_be_chosen(self@.agents, index) && parent@ == self@.agents[index],
    {
        let spin = draw(rng, SPIN_MIN, ONE);
        let selected_index = roulette_index(&self.agents, spin);
        assert(can_be_chosen(self@.agents, selected_index as int));
        &self.agents[selected_index]
    }

    /// Replaces the population by `pop_size - 1` children. Each child is a
    /// copy of a first parent whose network is crossed with that of a second
    /// parent at a freshly drawn `alpha` and then mutated at the learning
    /// rate; both parents are chosen by a spin of the wheel.
    #[verifier::rlimit(40)]
    pub fn new_generation(&mut self, rng: &mut StdRng)
        requires
            old(self)@.pop_size >= 1,
            old(self)@.pop_size >= 2 ==> old(self)@.agents.len() > 0,
            all_wf(old(self)@.agents),
        ensures
            final(self)@.pop_size == old(self)@.pop_size,
            final(self)@.learning_rate == old(self)@.learning_rate,
            final(self)@.current_gen == old(self)@.current_gen,
            final(self)@.agents.len() == old(self)@.pop_size - 1,
            all_wf(final(self)@.agents),
            all_offspring(final(self)@.agents, old(self)@.agents, old(self)@.learning_rate),
    {
        let ghost parents = self@.agents;
        let mut new_agents: Vec<Agent> = Vec::new();
        while new_agents.len() < self.pop_size - 1
            invariant
                self.pop_size >= 1,
                self.pop_size >= 2 ==> self@.agents.len() > 0,
                parents == self@.agents,
                all_wf(parents),
                new_agents@.len() <= self.pop_size - 1,
                forall|k: int| 0 <= k < new_agents@.len() ==> (#[trigger] new_agents@[k])@.wf(),
                forall|k: int|
                    0 <= k < new_agents@.len() ==> is_offspring(
                        (#[trigger] new_agents@[k])@,
                        parents,
                        self.learning_rate as int,
                    ),
            decreases self.pop_size - 1 - new_agents@.len(),
        {
            let first_parent = self.select_parent(rng);
            let second_parent = self.select_parent(rng);
            let mut child = first_parent.clone();
            let alpha = draw(rng, 0, ONE);
            let ghost first = choose|index: int|
                #[trigger] can_be_chosen(parents, index) && first_parent@ == parents[index];
            let ghost second = choose|index: int|
                #[trigger] can_be_chosen(parents, index) && second_parent@ == parents[index];
            proof {
                lemma_chosen_in_range(parents, first);
                lemma_chosen_in_range(parents, second);
            }
            child.net.crossover(&second_parent.net, alpha);
            child.net.mutate(self.learning_rate, rng);
            proof {
                assert(child@.net.mutated_from(
                    parents[first].net.crossed(parents[second].net, alpha as int),
                    self.learning_rate as int,
                ));
            }
            new_agents.push(child);
        }
        self.agents = new_agents;
        proof {
            let after = self@.agents;
            assert forall|k: int| 0 <= k < after.len() implies (#[trigger] after[k]).wf()
                && is_offspring(after[k], parents, self.learning_rate as int) by {
            }
        }
    }

    /// Runs the search: a random population is bred `generations` times, each
    /// time after being scored; then the last population is scored and the
    /// network of its fittest agent returned. With no generations to breed,
    /// that is the best of the random population. No bias ever changes, so
    /// every bias of the last population is as it was drawn.
    #[verifier::rlimit(60)]
    pub fn get_best(&mut self, generations: u32, rng: &mut StdRng) -> (best: NeuralNetwork)
        requires
            old(self)@.pop_size >= 1,
            generations > 0 ==> old(self)@.pop_size >= 2,
        ensures
            final(self)@.pop_size == old(self)@.pop_size,
            final(self)@.learning_rate == old(self)@.learning_rate,
            final(self)@.current_gen == generations,
            is_last_population(
                final(self)@.agents,
                old(self)@.pop_size,
                old(self)@.learning_rate,
                generations as int,
            ),
            exists|index: int|
                {
                    &&& #[trigger] is_fittest(final(self)@.agents, index)
                    &&& scores_most(final(self)@.agents, index)
                    &&& best@ == final(self)@.agents[index].net
                },
            best@.wf(),
    {
        self.current_gen = 0;
        self.init_random(rng);
        let ghost mut parents: Seq<AgentModel> = Seq::empty();
        proof {
            lemma_fresh_biases(self@.agents);
        }

        while self.current_gen < generations
            invariant
                self@.pop_size == old(self)@.pop_size,
                self@.learning_rate == old(self)@.learning_rate,
                self@.pop_size >= 2 || generations == 0,
                0 <= self.current_gen <= generations,
                self@.agents.len() == (if self.current_gen == 0 {
                    self@.pop_size
                } else {
                    self@.pop_size - 1
                }),
                all_wf(self@.agents),
                all_biases_fresh(self@.agents),
                self.current_gen == 0 ==> all_fresh(self@.agents),
                self.current_gen > 0 ==> {
                    &&& parents.len() == (if self.current_gen == 1 {
                        self@.pop_size
                    } else {
                        self@.pop_size - 1
                    })
                    &&& all_wf(parents)
                    &&& evaluated(parents) == parents
                    &&& all_bred(self@.agents, parents, self@.learning_rate)
                },
            decreases generations - self.current_gen,
        {
            let ghost before = self@.agents;
            self.calculate_fitness();
            proof {
                parents = self@.agents;
                lemma_evaluated_wf(before);
                lemma_evaluated_keeps_nets(before, before, self@.learning_rate);
            }
            self.new_generation(rng);
            proof {
                lemma_all_offspring(self@.agents, parents, self@.learning_rate);
            }

            self.current_gen += 1;
        }

        let ghost bred = self@.agents;
        self.calculate_fitness();
        proof {
            lemma_evaluated_wf(bred);
            lemma_evaluated_keeps_nets(bred, parents, self@.learning_rate);
        }
        let index = fittest(&self.agents);
        proof {
            lemma_fittest_scores_most(self@.agents, index as int);
            if generations > 0 {
                assert(all_bred(self@.agents, parents, self@.learning_rate));
            }
        }
        self.agents[index].net.clone()
    }
}

} // verus!
