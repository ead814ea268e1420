use sticky_pool::cli::{Cli, Commands};
use sticky_pool::envelope::InferenceResult;
use sticky_pool::outcome::{conclude, AcceptError, Delivery};

#[test]
fn a_reply_is_the_result() {
    let result = conclude(Delivery::Replied(InferenceResult(String::from("text"))));
    assert_eq!(result.map(|r| r.0), Ok(String::from("text")));
}

#[test]
fn a_diagnostic_reply_is_no_error() {
    let reply = InferenceResult(String::from("id: 1, inference error: boom"));
    let result = conclude(Delivery::Replied(reply));
    assert_eq!(result.map(|r| r.0), Ok(String::from("id: 1, inference error: boom")));
}

#[test]
fn a_closed_queue_is_a_dispatch_error() {
    let result = conclude(Delivery::QueueClosed);
    assert_eq!(result.map(|r| r.0), Err(AcceptError::Dispatch));
}

#[test]
fn a_dropped_reply_is_result_unavailable() {
    let result = conclude(Delivery::ReplyDropped);
    assert_eq!(result.map(|r| r.0), Err(AcceptError::ResultUnavailable));
}

#[test]
fn the_errors_say_what_went_wrong() {
    assert_eq!(AcceptError::Dispatch.message(), "dispatch failed: worker queue closed");
    assert_eq!(
        AcceptError::ResultUnavailable.message(),
        "result unavailable: worker dropped the reply"
    );
    assert_ne!(AcceptError::Dispatch, AcceptError::ResultUnavailable);
}

#[test]
fn commands_hold_their_arguments() {
    let ask = Cli { command: Commands::Ask { query: vec![String::from("why"), String::from("so")] } };
    assert_eq!(
        ask.command,
        Commands::Ask { query: vec![String::from("why"), String::from("so")] }
    );
    let list = Commands::List { start: 0, limit: 10 };
    assert_ne!(list, Commands::List { start: 10, limit: 10 });
    let forget = Commands::Forget { content_id: None, all: true };
    assert_eq!(forget.clone(), forget);
    assert_ne!(
        Commands::Remember { content: String::from("a") },
        Commands::Upload { path: String::from("a") }
    );
}
