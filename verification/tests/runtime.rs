use std::sync::Arc;
use std::time::{Duration, Instant};

use sticky_pool::engine::InferenceEngine;
use sticky_pool::envelope::{InferenceJob, InferenceResult};
use sticky_pool::outcome::{conclude, AcceptError, Delivery};
use sticky_pool::pool::WorkerPool;
use sticky_pool::worker::{staff, Received, Step, Worker};
use tokio::runtime::{Builder, Runtime};
use tokio::sync::{mpsc, oneshot, Mutex};
use tokio::task::spawn_blocking;

type Job = InferenceJob<oneshot::Sender<InferenceResult>>;

/// A pool on threads: one bounded queue and one blocking thread per worker.
struct Running {
    queues: Vec<mpsc::Sender<Job>>,
    dispatcher: Mutex<WorkerPool>,
}

fn drain<E: InferenceEngine>(mut worker: Worker<E>, mut rx: mpsc::Receiver<Job>) {
    loop {
        let received = match rx.blocking_recv() {
            Some(job) => Received::Job(job),
            None => Received::Closed,
        };
        match worker.step(received) {
            Step::Reply { reply_tx, result } => {
                let _ = reply_tx.send(result);
            }
            Step::Wait => {}
            Step::Stop => break,
        }
    }
}

impl Running {
    fn start<E, F>(size: usize, buffer: usize, engine_factory: F) -> Running
    where
        E: InferenceEngine + Send + 'static,
        F: Fn() -> E,
    {
        let mut queues = Vec::new();
        for worker in staff(size, engine_factory) {
            let (tx, rx) = mpsc::channel(buffer);
            spawn_blocking(move || drain(worker, rx));
            queues.push(tx);
        }
        Running { queues, dispatcher: Mutex::new(WorkerPool::new(size, 10, 60_000)) }
    }

    /// Queues the job and returns the worker it went to and the handle on
    /// which its reply will arrive.
    async fn submit(
        &self,
        prompt: &str,
        session: &str,
    ) -> Result<(usize, oneshot::Receiver<InferenceResult>), AcceptError> {
        let (reply_tx, reply_rx) = oneshot::channel();
        let dispatch = self.dispatcher.lock().await.accept(String::from(prompt), 8, session, reply_tx);
        match self.queues[dispatch.worker].send(dispatch.job).await {
            Ok(()) => Ok((dispatch.worker, reply_rx)),
            Err(_) => conclude(Delivery::QueueClosed).map(|_| unreachable!()),
        }
    }

    async fn accept(&self, prompt: &str, session: &str) -> Result<InferenceResult, AcceptError> {
        let (_, reply_rx) = self.submit(prompt, session).await?;
        conclude(match reply_rx.await {
            Ok(reply) => Delivery::Replied(reply),
            Err(_) => Delivery::ReplyDropped,
        })
    }
}

fn runtime() -> Runtime {
    Builder::new_multi_thread().worker_threads(2).max_blocking_threads(16).build().unwrap()
}

struct Boom;

impl InferenceEngine for Boom {
    fn run(&mut self, _prompt: &str, _sample_len: usize) -> Result<String, String> {
        Err(String::from("boom"))
    }
}

/// Sleeps, then returns its input.
struct Sleeper(Duration);

impl InferenceEngine for Sleeper {
    fn run(&mut self, prompt: &str, _sample_len: usize) -> Result<String, String> {
        // Blocks this thread, and only this one, for the whole nap.
        let (_idle, wake) = std::sync::mpsc::channel::<()>();
        let _ = wake.recv_timeout(self.0);
        Ok(String::from(prompt))
    }
}

/// Numbers the jobs it runs.
struct Counter(usize);

impl InferenceEngine for Counter {
    fn run(&mut self, prompt: &str, _sample_len: usize) -> Result<String, String> {
        self.0 += 1;
        Ok(format!("{}:{}", self.0, prompt))
    }
}

#[test]
fn a_failing_engine_is_answered_with_text_not_with_an_error() {
    let rt = runtime();
    let reply = rt.block_on(async {
        let pool = Running::start(2, 4, || Boom);
        let first = pool.accept("q", "s1").await;
        let second = pool.accept("q", "s2").await;
        let third = pool.accept("q", "s1").await;
        (first, second, third)
    });
    assert_eq!(reply.0.map(|r| r.0), Ok(String::from("id: 0, inference error: boom")));
    assert_eq!(reply.1.map(|r| r.0), Ok(String::from("id: 1, inference error: boom")));
    assert_eq!(reply.2.map(|r| r.0), Ok(String::from("id: 0, inference error: boom")));
}

#[test]
fn distinct_sessions_run_in_parallel() {
    let rt = runtime();
    let workers = 4;
    let nap = Duration::from_millis(200);
    let (elapsed, replies) = rt.block_on(async {
        let pool = Arc::new(Running::start(workers, 2, || Sleeper(nap)));
        let begun = Instant::now();
        let mut calls = Vec::new();
        for i in 0..workers {
            let pool = pool.clone();
            calls.push(tokio::spawn(async move {
                pool.accept(&format!("prompt {i}"), &format!("session {i}")).await
            }));
        }
        let mut replies = Vec::new();
        for call in calls {
            replies.push(call.await.unwrap().map(|r| r.0));
        }
        (begun.elapsed(), replies)
    });
    for (i, reply) in replies.iter().enumerate() {
        assert_eq!(reply, &Ok(format!("prompt {i}")));
    }
    assert!(elapsed >= nap);
    assert!(elapsed < nap * 3, "four jobs of 200 ms took {elapsed:?}");
}

#[test]
fn jobs_of_one_session_are_answered_in_submission_order() {
    let rt = runtime();
    let (workers, replies) = rt.block_on(async {
        let pool = Running::start(3, 8, || Counter(0));
        let (w1, first) = pool.submit("first", "s1").await.unwrap();
        let (w2, second) = pool.submit("second", "s1").await.unwrap();
        let (w3, third) = pool.submit("third", "s1").await.unwrap();
        // Await them out of order: the numbering is the worker's.
        let third = third.await.unwrap().0;
        let first = first.await.unwrap().0;
        let second = second.await.unwrap().0;
        ((w1, w2, w3), (first, second, third))
    });
    assert_eq!(workers, (0, 0, 0));
    assert_eq!(
        replies,
        (String::from("1:first"), String::from("2:second"), String::from("3:third"))
    );
}

#[test]
fn a_full_queue_makes_the_caller_wait_and_loses_nothing() {
    let rt = runtime();
    let replies = rt.block_on(async {
        let pool = Arc::new(Running::start(1, 1, || Counter(0)));
        let mut calls = Vec::new();
        for i in 0..20 {
            let pool = pool.clone();
            calls.push(tokio::spawn(async move { pool.accept(&format!("p{i}"), "s").await }));
        }
        let mut replies = Vec::new();
        for call in calls {
            replies.push(call.await.unwrap().unwrap().0);
        }
        replies
    });
    let mut numbers: Vec<usize> =
        replies.iter().map(|r| r.split(':').next().unwrap().parse().unwrap()).collect();
    numbers.sort();
    assert_eq!(numbers, (1..=20).collect::<Vec<usize>>());
}

#[test]
fn a_closed_queue_is_reported_as_a_dispatch_error() {
    let rt = runtime();
    let result = rt.block_on(async {
        let (tx, rx) = mpsc::channel::<Job>(1);
        drop(rx);
        let pool = Running { queues: vec![tx], dispatcher: Mutex::new(WorkerPool::new(1, 10, 1_000)) };
        pool.accept("q", "s").await
    });
    assert_eq!(result.map(|r| r.0), Err(AcceptError::Dispatch));
}

#[test]
fn a_dropped_reply_is_reported_as_result_unavailable() {
    let rt = runtime();
    let result = rt.block_on(async {
        let (tx, mut rx) = mpsc::channel::<Job>(1);
        // A worker that dies between taking the job and replying.
        spawn_blocking(move || drop(rx.blocking_recv()));
        let pool = Running { queues: vec![tx], dispatcher: Mutex::new(WorkerPool::new(1, 10, 1_000)) };
        pool.accept("q", "s").await
    });
    assert_eq!(result.map(|r| r.0), Err(AcceptError::ResultUnavailable));
}

#[test]
fn workers_leave_when_the_pool_is_dropped() {
    let rt = runtime();
    rt.block_on(async {
        let (tx, rx) = mpsc::channel::<Job>(1);
        let worker = Worker::new(0, Counter(0));
        let thread = spawn_blocking(move || drain(worker, rx));
        let (reply_tx, reply_rx) = oneshot::channel();
        let job = InferenceJob {
            prompt: String::from("p"),
            session_id: String::from("s"),
            sample_len: 1,
            reply_tx,
        };
        tx.send(job).await.unwrap();
        assert_eq!(reply_rx.await.unwrap().0, "1:p");
        drop(tx);
        thread.await.unwrap();
    });
}

#[test]
fn an_abandoned_call_does_not_stop_the_worker() {
    let rt = runtime();
    let replies = rt.block_on(async {
        let pool = Running::start(1, 4, || Counter(0));
        let (_, abandoned) = pool.submit("never read", "s").await.unwrap();
        drop(abandoned);
        let after = pool.accept("read", "s").await;
        after.map(|r| r.0)
    });
    // The abandoned job was still run: the next one is the second.
    assert_eq!(replies, Ok(String::from("2:read")));
}
