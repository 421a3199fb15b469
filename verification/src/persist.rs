//! A network as text: the weights and the biases as nested JSON arrays of
//! integers, `[weights, biases]`.
use crate::network::{grid_model, stack_model, NetModel, NeuralNetwork};
use vstd::prelude::*;

verus! {

/// `serde_json::Error`, declared so that the two calls below can hand it
/// back. Nothing is read out of it.
#[verifier::external_type_specification]
#[verifier::external_body]
pub struct ExJsonError(serde_json::Error);

/// The text that `serde_json::to_string` gives for the pair of `weights` and
/// `biases`, or `None` where it gives an error.
pub uninterp spec fn json_text(weights: Seq<Seq<Seq<int>>>, biases: Seq<Seq<int>>) -> Option<
    Seq<char>,
>;

/// The pair of weights and biases that `serde_json::from_str` reads out of
/// `text`, or `None` where it gives an error.
pub uninterp spec fn json_numbers(text: Seq<char>) -> Option<(Seq<Seq<Seq<int>>>, Seq<Seq<int>>)>;

/// Writes the pair `(weights, biases)` as JSON with `serde_json::to_string`.
/// Its documentation names two ways to fail: a value whose own `Serialize`
/// decides to fail, and a map whose keys are no strings. Vectors and
/// integers do neither, and the text is written into memory, so success is
/// claimed. The text depends on nothing but the numbers; it is named
/// `json_text` and nothing else is claimed of it.
#[verifier::external_body]
pub(crate) fn to_json(weights: &Vec<Vec<Vec<i64>>>, biases: &Vec<Vec<i64>>) -> (text: Result<
    String,
    serde_json::Error,
>)
    ensures
        text is Ok,
        json_text(stack_model(*weights), grid_model(*biases)) == Some(text.unwrap()@),
{
    serde_json::to_string(&(weights, biases))
}

/// Reads a pair of nested arrays of integers out of JSON text with
/// `serde_json::from_str`. What is read depends on nothing but the text; it
/// is named `json_numbers` and nothing else is claimed of it.
#[verifier::external_body]
pub(crate) fn from_json(text: &str) -> (numbers: Result<
    (Vec<Vec<Vec<i64>>>, Vec<Vec<i64>>),
    serde_json::Error,
>)
    ensures
        numbers is Ok <==> json_numbers(text@) is Some,
        numbers is Ok ==> (stack_model(numbers.unwrap().0), grid_model(numbers.unwrap().1))
            == json_numbers(text@).unwrap(),
{
    serde_json::from_str(text)
}

/// Why a network could not be read from text or written as text.
#[derive(Clone, Copy, Debug, PartialEq, Eq, Structural)]
pub enum NetFileError {
    /// The text is not a pair of nested arrays of integers.
    Malformed,
    /// The arrays do not have the shape of a network, or hold a number
    /// beyond the limit.
    WrongShape,
    /// The network could not be written. Vectors of integers can always be
    /// written, so this is not met in practice.
    NotWritten,
    /// What was written does not read back as the same network.
    NotFaithful,
}

/// The network that stands in `text`, or why there is none.
pub open spec fn read_spec(text: Seq<char>) -> Result<NetModel, NetFileError> {
    match json_numbers(text) {
        None => Err(NetFileError::Malformed),
        Some((weights, biases)) => {
            let net = NetModel { weights, biases };
            if net.wf() {
                Ok(net)
            } else {
                Err(NetFileError::WrongShape)
            }
        },
    }
}

/// The text that `net` is written as, or why it cannot be written: the text
/// must read back as `net`.
pub open spec fn written_spec(net: NetModel) -> Result<Seq<char>, NetFileError> {
    match json_text(net.weights, net.biases) {
        None => Err(NetFileError::NotWritten),
        Some(text) => {
            if read_spec(text) == Ok::<NetModel, NetFileError>(net) {
                Ok(text)
            } else {
                Err(NetFileError::NotFaithful)
            }
        },
    }
}

/// Whatever a network is written as reads back as that network.
pub proof fn lemma_written_reads_back(net: NetModel)
    ensures
        written_spec(net) is Ok ==> read_spec(written_spec(net).unwrap()) == Ok::<
            NetModel,
            NetFileError,
        >(net),
{
}

impl NeuralNetwork {
    /// The network that stands in `text`.
    pub fn from_text(text: &str) -> (net: Result<NeuralNetwork, NetFileError>)
        ensures
            net is Ok <==> read_spec(text@) is Ok,
            net is Ok ==> net.unwrap()@ == read_spec(text@).unwrap(),
            net is Ok ==> net.unwrap()@.wf(),
            net is Err ==> read_spec(text@) == Err::<NetModel, NetFileError>(net.unwrap_err()),
    {
        match from_json(text) {
            Err(_) => Err(NetFileError::Malformed),
            Ok((weights, biases)) => {
                match NeuralNetwork::from_parts(weights, biases) {
                    Some(net) => Ok(net),
                    None => Err(NetFileError::WrongShape),
                }
            },
        }
    }

    /// The network as text. The text is read back before it is handed out,
    /// so that what is stored is known to give this network again.
    pub fn to_text(&self) -> (text: Result<String, NetFileError>)
        requires
            self@.wf(),
        ensures
            text is Ok <==> written_spec(self@) is Ok,
            text is Ok ==> text.unwrap()@ == written_spec(self@).unwrap(),
            text is Err ==> written_spec(self@) == Err::<Seq<char>, NetFileError>(
                text.unwrap_err(),
            ),
    {
        let (weights, biases) = self.parts();
        match to_json(weights, biases) {
            Err(_) => Err(NetFileError::NotWritten),
            Ok(text) => {
                match NeuralNetwork::from_text(text.as_str()) {
                    Ok(back) => {
                        if self.same_as(&back) {
                            Ok(text)
                        } else {
                            Err(NetFileError::NotFaithful)
                        }
                    },
                    Err(_) => Err(NetFileError::NotFaithful),
                }
            },
        }
    }
}

} // verus!
