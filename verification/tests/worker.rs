use std::cell::Cell;

use sticky_pool::engine::{Echo as PlainEcho, Failing as AlwaysFailing, InferenceEngine};
use sticky_pool::envelope::{InferenceJob, InferenceResult};
use sticky_pool::worker::{diagnostic, reply_for, staff, Received, Step, Worker};

struct Failing;

impl InferenceEngine for Failing {
    fn run(&mut self, _prompt: &str, _sample_len: usize) -> Result<String, String> {
        Err(String::from("boom"))
    }
}

/// Returns its input and counts its calls.
struct Echo {
    calls: usize,
}

impl InferenceEngine for Echo {
    fn run(&mut self, prompt: &str, sample_len: usize) -> Result<String, String> {
        self.calls += 1;
        Ok(format!("{}#{}:{}", self.calls, sample_len, prompt))
    }
}

fn job(prompt: &str) -> InferenceJob<u32> {
    InferenceJob {
        prompt: String::from(prompt),
        session_id: String::from("s"),
        sample_len: 4,
        reply_tx: 0,
    }
}

fn job_with(prompt: &str, reply_tx: u32) -> InferenceJob<u32> {
    InferenceJob { reply_tx, ..job(prompt) }
}

#[test]
fn a_failing_engine_yields_a_diagnostic_reply() {
    let mut worker = Worker::new(7, Failing);
    let reply = worker.serve(&job("hello"));
    assert_eq!(reply.0, "id: 7, inference error: boom");
    assert!(reply.0.contains("7"));
    assert!(reply.0.contains("boom"));
    // The worker is still there for the next job.
    let again = worker.serve(&job("hello again"));
    assert_eq!(again.0, "id: 7, inference error: boom");
    assert_eq!(worker.id(), 7);
}

#[test]
fn a_working_engine_yields_its_text() {
    let mut worker = Worker::new(2, Echo { calls: 0 });
    let reply = worker.serve(&job("hello"));
    assert_eq!(reply.0, "1#4:hello");
}

#[test]
fn jobs_are_answered_in_the_order_they_are_served() {
    let mut worker = Worker::new(0, Echo { calls: 0 });
    let first = worker.serve(&job("first"));
    let second = worker.serve(&job("second"));
    assert_eq!(first.0, "1#4:first");
    assert_eq!(second.0, "2#4:second");
}

#[test]
fn the_diagnostic_names_the_worker_in_decimal() {
    assert_eq!(diagnostic(0, "x"), "id: 0, inference error: x");
    assert_eq!(diagnostic(9, "x"), "id: 9, inference error: x");
    assert_eq!(diagnostic(10, "x"), "id: 10, inference error: x");
    assert_eq!(diagnostic(305, "x"), "id: 305, inference error: x");
    assert_eq!(diagnostic(1234567890, ""), "id: 1234567890, inference error: ");
    assert_eq!(
        diagnostic(usize::MAX, "late"),
        format!("id: {}, inference error: late", usize::MAX)
    );
}

#[test]
fn the_diagnostic_keeps_the_message_as_it_is() {
    assert_eq!(
        diagnostic(3, "id: 1, inference error: nested, with: punctuation"),
        "id: 3, inference error: id: 1, inference error: nested, with: punctuation"
    );
    assert_eq!(diagnostic(3, "héllo ✓"), "id: 3, inference error: héllo ✓");
}

#[test]
fn reply_for_passes_text_and_wraps_failures() {
    assert_eq!(reply_for(4, Ok(String::from("fine"))).0, "fine");
    assert_eq!(reply_for(4, Ok(String::new())).0, "");
    assert_eq!(reply_for(4, Err(String::from("bad"))).0, "id: 4, inference error: bad");
}

#[test]
fn a_job_is_answered_and_the_loop_goes_on() {
    let mut worker = Worker::new(1, Echo { calls: 0 });
    match worker.step(Received::Job(job_with("q", 41))) {
        Step::Reply { reply_tx, result } => {
            assert_eq!(reply_tx, 41);
            assert_eq!(result.0, "1#4:q");
        }
        other => panic!("expected a reply, got {other:?}"),
    }
    match worker.step(Received::Job(job_with("r", 42))) {
        Step::Reply { reply_tx, result } => {
            assert_eq!(reply_tx, 42);
            assert_eq!(result.0, "2#4:r");
        }
        other => panic!("expected a reply, got {other:?}"),
    }
}

#[test]
fn an_empty_queue_does_not_end_the_loop() {
    let mut worker = Worker::new(1, Echo { calls: 0 });
    assert!(matches!(worker.step(Received::<u32>::Empty), Step::Wait));
    assert!(matches!(worker.step(Received::<u32>::Empty), Step::Wait));
    assert!(matches!(worker.step(Received::Job(job("q"))), Step::Reply { .. }));
}

#[test]
fn a_closed_queue_ends_the_loop() {
    let mut worker = Worker::new(1, Failing);
    assert!(matches!(worker.step(Received::<u32>::Closed), Step::Stop));
}

#[test]
fn a_failed_job_does_not_end_the_loop() {
    let mut worker = Worker::new(5, Failing);
    match worker.step(Received::Job(job_with("q", 9))) {
        Step::Reply { reply_tx, result } => {
            assert_eq!(reply_tx, 9);
            assert_eq!(result.0, "id: 5, inference error: boom");
        }
        other => panic!("expected a reply, got {other:?}"),
    }
    assert!(matches!(worker.step(Received::<u32>::Empty), Step::Wait));
}

#[test]
fn staff_numbers_the_workers_and_calls_the_factory_once_each() {
    let made = Cell::new(0usize);
    let workers = staff(4, || {
        made.set(made.get() + 1);
        Echo { calls: 0 }
    });
    assert_eq!(made.get(), 4);
    let ids: Vec<usize> = workers.iter().map(|w| w.id()).collect();
    assert_eq!(ids, vec![0, 1, 2, 3]);
}

#[test]
fn staff_of_none_is_empty() {
    let workers = staff(0, || Failing);
    assert!(workers.is_empty());
}

#[test]
fn each_worker_has_an_engine_of_its_own() {
    let mut workers = staff(2, || Echo { calls: 0 });
    assert_eq!(workers[0].serve(&job("a")).0, "1#4:a");
    assert_eq!(workers[0].serve(&job("b")).0, "2#4:b");
    assert_eq!(workers[1].serve(&job("c")).0, "1#4:c");
}

#[test]
fn a_result_gives_its_text() {
    let result = InferenceResult(String::from("answer"));
    assert_eq!(result.to_string(), "answer");
    assert_eq!(result.0, "answer");
}

#[test]
fn the_failing_engine_fails_with_its_message() {
    let mut engine = AlwaysFailing { message: String::from("boom") };
    assert_eq!(engine.run("a", 1), Err(String::from("boom")));
    assert_eq!(engine.run("b", 2), Err(String::from("boom")));
    let mut worker = Worker::new(12, AlwaysFailing { message: String::from("boom") });
    assert_eq!(worker.serve(&job("q")).0, "id: 12, inference error: boom");
    assert_eq!(worker.serve(&job("r")).0, "id: 12, inference error: boom");
}

#[test]
fn the_echo_engine_returns_its_prompt() {
    let mut engine = PlainEcho;
    assert_eq!(engine.run("say this", 0), Ok(String::from("say this")));
    assert_eq!(engine.run("", 7), Ok(String::new()));
    let mut worker = Worker::new(1, PlainEcho);
    assert_eq!(worker.serve(&job("first")).0, "first");
    assert_eq!(worker.serve(&job("second")).0, "second");
}

#[test]
fn the_engine_is_run_once_with_the_prompt_and_the_budget_of_the_job() {
    /// Answers with the number of the run, the budget and the prompt.
    struct Recording(usize);
    impl InferenceEngine for Recording {
        fn run(&mut self, prompt: &str, sample_len: usize) -> Result<String, String> {
            self.0 += 1;
            Ok(format!("run {} with {} on <{}>", self.0, sample_len, prompt))
        }
    }
    let mut worker = Worker::new(0, Recording(0));
    let asked = InferenceJob {
        prompt: String::from("the prompt"),
        session_id: String::from("the session"),
        sample_len: 321,
        reply_tx: 5u32,
    };
    match worker.step(Received::Job(asked)) {
        Step::Reply { reply_tx, result } => {
            assert_eq!(reply_tx, 5);
            assert_eq!(result.0, "run 1 with 321 on <the prompt>");
        }
        other => panic!("expected a reply, got {other:?}"),
    }
    // Looking at an empty queue runs nothing.
    assert!(matches!(worker.step(Received::<u32>::Empty), Step::Wait));
    assert_eq!(worker.serve(&job("next")).0, "run 2 with 4 on <next>");
}
