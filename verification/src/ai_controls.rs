//! The opponent's aiming: it owns a trained network and, when asked, turns
//! the two heights of a turn into the pull of the next shot.
use crate::fixed::ONE;
use crate::genetic::{
    is_fittest, is_last_population, scores_most, AgentModel, GeneticAlgorithm,
};
use crate::network::{pair_model, NetModel, NeuralNetwork};
use crate::persist::{read_spec, written_spec, NetFileError};
use rand::rngs::StdRng;
use vstd::prelude::*;

verus! {

/// The size of the population that a network is trained with.
pub const POP_SIZE: usize = 1024;

/// The rate at which children are mutated during training: a half.
pub const LEARNING_RATE: i64 = 500_000;

/// The number of generations that training breeds.
pub const GENERATIONS: u32 = 100;

/// What the aiming holds.
pub struct ControlsModel {
    pub is_enabled: bool,
    pub net: NetModel,
    pub pull_power: int,
    pub pull_angle: int,
}

/// The opponent's aiming.
#[derive(Debug)]
pub struct AIControls {
    is_enabled: bool,
    net: NeuralNetwork,
    pull_power: i64,
    pull_angle: i64,
}

impl View for AIControls {
    type V = ControlsModel;

    closed spec fn view(&self) -> ControlsModel {
        ControlsModel {
            is_enabled: self.is_enabled,
            net: self.net@,
            pull_power: self.pull_power as int,
            pull_angle: self.pull_angle as int,
        }
    }
}

/// The aiming as it is right after start-up with `net`: disabled, and with
/// no pull yet.
pub open spec fn started_with(net: NetModel) -> ControlsModel {
    ControlsModel { is_enabled: false, net, pull_power: 0, pull_angle: 0 }
}

/// Whether `outcome` is what training can end in, when it starts from a
/// random population of `pop_size` and breeds `generations` times at `rate`:
/// the aiming around the network of the fittest agent of a population that
/// such a search can end with, beside the text that this network is written
/// as; or, where that network cannot be written, the reason why.
pub open spec fn is_training_outcome(
    pop_size: int,
    rate: int,
    generations: int,
    outcome: Result<(ControlsModel, Seq<char>), NetFileError>,
) -> bool {
    exists|agents: Seq<AgentModel>, index: int|
        {
            &&& is_last_population(agents, pop_size, rate, generations)
            &&& #[trigger] is_fittest(agents, index)
            &&& scores_most(agents, index)
            &&& outcome == match written_spec(agents[index].net) {
                Ok(text) => Ok::<(ControlsModel, Seq<char>), NetFileError>(
                    (started_with(agents[index].net), text),
                ),
                Err(error) => Err::<(ControlsModel, Seq<char>), NetFileError>(error),
            }
        }
}

/// What `trained` hands back, for use in contracts.
pub open spec fn trained_model(started: Result<(AIControls, String), NetFileError>) -> Result<
    (ControlsModel, Seq<char>),
    NetFileError,
> {
    match started {
        Ok((controls, text)) => Ok((controls@, text@)),
        Err(error) => Err(error),
    }
}

/// What `new` hands back after training, for use in contracts: the text to
/// store is there whenever the aiming is.
pub open spec fn started_model(
    started: Result<(AIControls, Option<String>), NetFileError>,
) -> Result<(ControlsModel, Seq<char>), NetFileError> {
    match started {
        Ok((controls, text)) => Ok((controls@, text.unwrap()@)),
        Err(error) => Err(error),
    }
}

impl AIControls {
    /// The aiming around a network that is already there.
    pub fn with_net(net: NeuralNetwork) -> (controls: Self)
        requires
            net@.wf(),
        ensures
            controls@ == started_with(net@),
    {
        Self { is_enabled: false, net, pull_power: 0, pull_angle: 0 }
    }

    /// Starts the aiming up. Where a network was stored, `saved` is its
    /// text: the network is read from it, and a text that holds no network
    /// is an error; nothing is then trained in its place. Where nothing was
    /// stored, a network is trained, and the text to store for the next
    /// start-up is returned beside the aiming.
    pub fn new(saved: Option<&str>, rng: &mut StdRng) -> (started: Result<
        (Self, Option<String>),
        NetFileError,
    >)
        ensures
            saved is Some ==> match read_spec(saved.unwrap()@) {
                Ok(net) => started is Ok && started.unwrap().0@ == started_with(net)
                    && started.unwrap().1 is None,
                Err(error) => started == Err::<(Self, Option<String>), NetFileError>(error),
            },
            saved is None ==> is_training_outcome(
                POP_SIZE as int,
                LEARNING_RATE as int,
                GENERATIONS as int,
                started_model(started),
            ),
            saved is None && started is Ok ==> {
                let (controls, text) = started.unwrap();
                &&& text is Some
                &&& read_spec(text.unwrap()@) == Ok::<NetModel, NetFileError>(controls@.net)
            },
            started is Ok ==> started.unwrap().0@.net.wf(),
    {
        match saved {
            Some(serialized_net) => {
                match NeuralNetwork::from_text(serialized_net) {
                    Ok(net) => Ok((AIControls::with_net(net), None)),
                    Err(error) => Err(error),
                }
            },
            None => {
                match AIControls::trained(POP_SIZE, LEARNING_RATE, GENERATIONS, rng) {
                    Ok((controls, serialized_net)) => Ok((controls, Some(serialized_net))),
                    Err(error) => Err(error),
                }
            },
        }
    }

    /// Trains a network by an evolutionary search over `generations`
    /// generations, from a random population of `pop_size`, and returns the
    /// aiming around the best network beside the text to store it as.
    pub fn trained(
        pop_size: usize,
        learning_rate: i64,
        generations: u32,
        rng: &mut StdRng,
    ) -> (started: Result<(Self, String), NetFileError>)
        requires
            pop_size >= 1,
            generations > 0 ==> pop_size >= 2,
        ensures
            is_training_outcome(
                pop_size as int,
                learning_rate as int,
                generations as int,
                trained_model(started),
            ),
            started is Ok ==> {
                let (controls, text) = started.unwrap();
                &&& controls@.net.wf()
                &&& read_spec(text@) == Ok::<NetModel, NetFileError>(controls@.net)
            },
    {
        let mut genetic_algorithm = GeneticAlgorithm::new(pop_size, learning_rate);
        let best_net = genetic_algorithm.get_best(generations, rng);
        let ghost agents = genetic_algorithm@.agents;
        let ghost index = choose|index: int|
            #[trigger] is_fittest(agents, index) && scores_most(agents, index) && best_net@
                == agents[index].net;
        let started = match best_net.to_text() {
            Ok(serialized_net) => Ok((AIControls::with_net(best_net), serialized_net)),
            Err(error) => Err(error),
        };
        proof {
            assert(is_last_population(
                agents,
                pop_size as int,
                learning_rate as int,
                generations as int,
            ));
            let written = match written_spec(agents[index].net) {
                Ok(text) => Ok::<(ControlsModel, Seq<char>), NetFileError>(
                    (started_with(agents[index].net), text),
                ),
                Err(error) => Err::<(ControlsModel, Seq<char>), NetFileError>(error),
            };
            assert(is_fittest(agents, index) && scores_most(agents, index));
            assert(trained_model(started) == written);
        }
        started
    }

    /// Whether the aiming is to be asked for the next shot.
    pub fn enabled(&self) -> (value: bool)
        ensures
            value == self@.is_enabled,
    {
        self.is_enabled
    }

    /// Says whether the aiming is to be asked for the next shot.
    pub fn set_enabled(&mut self, value: bool)
        ensures
            final(self)@ == (ControlsModel { is_enabled: value, ..old(self)@ }),
    {
        self.is_enabled = value;
    }

    /// Chooses the next shot for `observation`, the height of the shooter
    /// and that of its opponent, and keeps its power and its angle.
    pub fn think(&mut self, observation: [i64; 2])
        requires
            old(self)@.net.wf(),
        ensures
            final(self)@ == (ControlsModel {
                pull_power: old(self)@.net.output(pair_model(observation))[0],
                pull_angle: old(self)@.net.output(pair_model(observation))[1],
                ..old(self)@
            }),
            0 < final(self)@.pull_power < ONE,
            0 < final(self)@.pull_angle < ONE,
    {
        let output = self.net.calculate_output(observation);
        self.pull_power = output[0];
        self.pull_angle = output[1];
    }

    /// The power of the shot that was last chosen.
    pub fn get_pull_power(&self) -> (power: i64)
        ensures
            power == self@.pull_power,
    {
        self.pull_power
    }

    /// The angle of the shot that was last chosen.
    pub fn get_pull_angle(&self) -> (angle: i64)
        ensures
            angle == self@.pull_angle,
    {
        self.pull_angle
    }

    /// The network that chooses the shots.
    pub fn net(&self) -> (net: &NeuralNetwork)
        ensures
            net@ == self@.net,
    {
        &self.net
    }
}

} // verus!
