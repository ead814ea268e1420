//! A worker: one engine, owned exclusively, serving one job at a time.
//!
//! The runtime owns the queue and the thread. What a worker decides stands
//! here: what it answers for a job, and whether its loop goes on after a
//! look at the queue.

use vstd::prelude::*;
use vstd::string::StringExecFns;
use crate::engine::{outcome_view, Failing, InferenceEngine};
use crate::envelope::{InferenceJob, InferenceResult};

verus! {

/// The decimal digit for `d`, a number below ten.
pub open spec fn digit(d: nat) -> char {
    if d == 0 {
        '0'
    } else if d == 1 {
        '1'
    } else if d == 2 {
        '2'
    } else if d == 3 {
        '3'
    } else if d == 4 {
        '4'
    } else if d == 5 {
        '5'
    } else if d == 6 {
        '6'
    } else if d == 7 {
        '7'
    } else if d == 8 {
        '8'
    } else {
        '9'
    }
}

/// `n` written in decimal, without leading zeros.
pub open spec fn decimal(n: nat) -> Seq<char>
    decreases n,
{
    if n < 10 {
        seq![digit(n)]
    } else {
        decimal(n / 10).push(digit(n % 10))
    }
}

/// The text that stands for a failed job of worker `id`.
pub open spec fn diagnostic_text(id: nat, message: Seq<char>) -> Seq<char> {
    "id: "@ + decimal(id) + ", inference error: "@ + message
}

/// The text a worker replies with, given what its engine returned.
pub open spec fn reply_text(id: nat, outcome: Result<Seq<char>, Seq<char>>) -> Seq<char> {
    match outcome {
        Ok(text) => text,
        Err(message) => diagnostic_text(id, message),
    }
}

fn digit_str(d: usize) -> (s: &'static str)
    requires
        d < 10,
    ensures
        s@ == seq![digit(d as nat)],
{
    proof {
        reveal_strlit("0");
        reveal_strlit("1");
        reveal_strlit("2");
        reveal_strlit("3");
        reveal_strlit("4");
        reveal_strlit("5");
        reveal_strlit("6");
        reveal_strlit("7");
        reveal_strlit("8");
        reveal_strlit("9");
    }
    let s = if d == 0 {
        "0"
    } else if d == 1 {
        "1"
    } else if d == 2 {
        "2"
    } else if d == 3 {
        "3"
    } else if d == 4 {
        "4"
    } else if d == 5 {
        "5"
    } else if d == 6 {
        "6"
    } else if d == 7 {
        "7"
    } else if d == 8 {
        "8"
    } else {
        "9"
    };
    assert(s@ =~= seq![digit(d as nat)]);
    s
}

/// Appends `n` in decimal to `text`.
fn push_decimal(text: &mut String, n: usize)
    ensures
        final(text)@ == old(text)@ + decimal(n as nat),
    decreases n,
{
    if n >= 10 {
        push_decimal(text, n / 10);
    }
    text.append(digit_str(n % 10));
    assert(final(text)@ =~= old(text)@ + decimal(n as nat));
}

/// The diagnostic for a job that failed on worker `id` with `message`.
pub fn diagnostic(id: usize, message: &str) -> (text: String)
    ensures
        text@ == diagnostic_text(id as nat, message@),
{
    let mut text = String::from_str("id: ");
    push_decimal(&mut text, id);
    text.append(", inference error: ");
    text.append(message);
    text
}

/// The reply of worker `id` for a job on which its engine returned
/// `outcome`: the generated text, or the diagnostic of the failure. A
/// failure is never passed on as one.
pub fn reply_for(id: usize, outcome: Result<String, String>) -> (reply: InferenceResult)
    ensures
        reply.0@ == reply_text(id as nat, outcome_view(outcome)),
{
    match outcome {
        Ok(text) => InferenceResult(text),
        Err(message) => InferenceResult(diagnostic(id, message.as_str())),
    }
}

/// Failure isolation: whatever an engine that always fails yields, the
/// worker's reply is the diagnostic that names the worker and the failure.
/// With the contract of `Worker::serve`, a worker of such an engine answers
/// every job with exactly that text, and goes on.
pub proof fn law_failure_isolation(
    id: nat,
    engine: Failing,
    prompt: Seq<char>,
    sample_len: usize,
    outcome: Result<Seq<char>, Seq<char>>,
)
    requires
        engine.yields(prompt, sample_len, outcome),
    ensures
        reply_text(id, outcome) == diagnostic_text(id, engine.message@),
{
}

/// What a worker found when it looked at its queue.
#[derive(Debug)]
pub enum Received<R> {
    /// A job was waiting.
    Job(InferenceJob<R>),
    /// Nothing is queued at the moment; senders remain.
    Empty,
    /// The queue is closed for good: no sender remains.
    Closed,
}

/// What a worker does next.
#[derive(Debug)]
pub enum Step<R> {
    /// Send `result` through `reply_tx`, the handle of the job just
    /// taken, then look again.
    Reply { reply_tx: R, result: InferenceResult },
    /// Look again.
    Wait,
    /// Leave the loop.
    Stop,
}

/// The workers of a pool of `size`: worker number `i` has the id `i` and
/// an engine of its own, made by one call of `engine_factory`.
pub fn staff<E: InferenceEngine, F: Fn() -> E>(size: usize, engine_factory: F) -> (workers: Vec<
    Worker<E>,
>)
    requires
        call_requires(engine_factory, ()),
    ensures
        workers@.len() == size,
        forall|i: int| 0 <= i < size ==> (#[trigger] workers@[i]).spec_id() == i,
        forall|i: int|
            0 <= i < size ==> call_ensures(engine_factory, (), (#[trigger] workers@[i]).engine()),
{
    let mut workers: Vec<Worker<E>> = Vec::new();
    let mut i: usize = 0;
    while i < size
        invariant
            i <= size,
            workers@.len() == i,
            call_requires(engine_factory, ()),
            forall|j: int| 0 <= j < i ==> (#[trigger] workers@[j]).spec_id() == j,
            forall|j: int|
                0 <= j < i ==> call_ensures(engine_factory, (), (#[trigger] workers@[j]).engine()),
        decreases size - i,
    {
        let engine = engine_factory();
        workers.push(Worker::new(i, engine));
        i = i + 1;
    }
    workers
}

/// One worker of the pool.
pub struct Worker<E: InferenceEngine> {
    id: usize,
    inference_engine: E,
}

impl<E: InferenceEngine> Worker<E> {
    /// The worker's number in the pool.
    pub closed spec fn spec_id(&self) -> usize {
        self.id
    }

    /// The engine that the worker owns.
    pub closed spec fn engine(&self) -> E {
        self.inference_engine
    }

    /// A worker with the number `id` that owns `inference_engine` from now
    /// on.
    pub fn new(id: usize, inference_engine: E) -> (worker: Self)
        ensures
            worker.spec_id() == id,
            worker.engine() == inference_engine,
    {
        Worker { id, inference_engine }
    }

    /// The worker's number in the pool.
    #[verifier::when_used_as_spec(spec_id)]
    pub fn id(&self) -> (id: usize)
        ensures
            id == self.spec_id(),
    {
        self.id
    }

    /// Runs the engine on the job's prompt and token budget and wraps what
    /// it returns, by `reply_for`: the reply is the text that the engine
    /// yielded for this job, or the diagnostic of its failure. The worker
    /// survives a failing engine.
    pub fn serve<R>(&mut self, job: &InferenceJob<R>) -> (reply: InferenceResult)
        ensures
            final(self).spec_id() == old(self).spec_id(),
            exists|outcome: Result<Seq<char>, Seq<char>>|
                old(self).engine().yields(job.prompt@, job.sample_len, outcome) && reply.0@
                    == #[trigger] reply_text(old(self).spec_id() as nat, outcome),
    {
        let ghost engine = self.inference_engine;
        let outcome = self.inference_engine.run(job.prompt.as_str(), job.sample_len);
        let ghost seen = outcome_view(outcome);
        let reply = reply_for(self.id, outcome);
        assert(engine.yields(job.prompt@, job.sample_len, seen));
        assert(reply.0@ == reply_text(self.id as nat, seen));
        reply
    }

    /// One turn of the worker's loop. A job is served and answered
    /// through its own handle; an empty queue is no reason to leave; only
    /// a closed queue ends the loop.
    pub fn step<R>(&mut self, received: Received<R>) -> (step: Step<R>)
        ensures
            final(self).spec_id() == old(self).spec_id(),
            received is Job <==> step is Reply,
            received is Empty <==> step is Wait,
            received is Closed <==> step is Stop,
            step matches Step::Reply { reply_tx, result } ==> {
                &&& received matches Received::Job(job) && reply_tx == job.reply_tx
                    && exists|outcome: Result<Seq<char>, Seq<char>>|
                    old(self).engine().yields(job.prompt@, job.sample_len, outcome) && result.0@
                        == #[trigger] reply_text(old(self).spec_id() as nat, outcome)
            },
            received is Job ==> final(self).spec_id() == old(self).spec_id(),
            !(received is Job) ==> *final(self) == *old(self),
    {
        match received {
            Received::Job(job) => {
                let result = self.serve(&job);
                Step::Reply { reply_tx: job.reply_tx, result }
            },
            Received::Empty => Step::Wait,
            Received::Closed => Step::Stop,
        }
    }
}

} // verus!
