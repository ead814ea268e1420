//! The capability a worker drives.

use vstd::prelude::*;

verus! {

/// What an engine returned, with its strings as sequences of characters.
pub open spec fn outcome_view(outcome: Result<String, String>) -> Result<Seq<char>, Seq<char>> {
    match outcome {
        Ok(text) => Ok(text@),
        Err(message) => Err(message@),
    }
}

/// A text generator that a worker owns and calls for one job at a time.
///
/// `run` turns a prompt and a token budget into generated text, or fails
/// with a message. It may block for as long as the model needs.
///
/// `yields` is the engine's own account of what a run may return: an
/// implementation may choose it, and `run` must keep to it. An engine
/// that does not say lets `yields` hold of every outcome. Whatever the
/// worker replies is answerable to this relation.
pub trait InferenceEngine {
    /// In the state `self`, a run on `prompt` with the budget `sample_len`
    /// may return `outcome`.
    open spec fn yields(
        &self,
        prompt: Seq<char>,
        sample_len: usize,
        outcome: Result<Seq<char>, Seq<char>>,
    ) -> bool {
        true
    }

    fn run(&mut self, prompt: &str, sample_len: usize) -> (outcome: Result<String, String>)
        ensures
            old(self).yields(prompt@, sample_len, outcome_view(outcome)),
    ;
}

/// An engine that fails every run with the same message. It stands for a
/// broken model where a pool is tried out.
pub struct Failing {
    pub message: String,
}

impl InferenceEngine for Failing {
    open spec fn yields(
        &self,
        prompt: Seq<char>,
        sample_len: usize,
        outcome: Result<Seq<char>, Seq<char>>,
    ) -> bool {
        outcome == Err::<Seq<char>, Seq<char>>(self.message@)
    }

    fn run(&mut self, prompt: &str, sample_len: usize) -> (outcome: Result<String, String>)
        ensures
            *final(self) == *old(self),
    {
        Err(self.message.clone())
    }
}

/// An engine that returns its prompt, whatever the budget.
pub struct Echo;

impl InferenceEngine for Echo {
    open spec fn yields(
        &self,
        prompt: Seq<char>,
        sample_len: usize,
        outcome: Result<Seq<char>, Seq<char>>,
    ) -> bool {
        outcome == Ok::<Seq<char>, Seq<char>>(prompt)
    }

    fn run(&mut self, prompt: &str, sample_len: usize) -> (outcome: Result<String, String>) {
        Ok(prompt.to_owned())
    }
}

} // verus!
