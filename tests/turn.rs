use kids_ai::chat::{ChatHistory, Role};
use kids_ai::turn::{after_attempt, backoff_before, begin_turn, finish_turn, TurnState, MAX_ATTEMPTS};

#[test]
fn three_empty_replies_roll_back_the_turn() {
    let mut h = ChatHistory::new("s".to_string(), 10);
    h.add_user_message("earlier");
    h.add_assistant_message("answer");
    let before = h.len();
    let msgs = begin_turn(&mut h, "why?");
    assert_eq!(msgs.len(), 4);
    let mut state = TurnState::Attempting(0);
    let mut attempts = 0;
    while let TurnState::Attempting(n) = state {
        attempts += 1;
        state = after_attempt(n, Some(String::new()));
    }
    assert_eq!(attempts, MAX_ATTEMPTS);
    assert!(matches!(state, TurnState::Failed));
    finish_turn(&mut h, &state);
    assert_eq!(h.len(), before);
    let hist = h.history();
    assert_eq!(hist[hist.len() - 1].role, Role::Assistant);
    assert_eq!(hist[hist.len() - 1].content, "answer");
}

#[test]
fn reply_after_an_empty_one_succeeds() {
    let mut h = ChatHistory::new("s".to_string(), 10);
    let _ = begin_turn(&mut h, "q");
    let s1 = after_attempt(0, Some(String::new()));
    assert!(matches!(s1, TurnState::Attempting(1)));
    let s2 = after_attempt(1, Some("yes".to_string()));
    match &s2 {
        TurnState::Succeeded(t) => assert_eq!(t, "yes"),
        _ => panic!("expected success"),
    }
    finish_turn(&mut h, &s2);
    let hist = h.history();
    assert_eq!(hist.len(), 2);
    assert_eq!((hist[0].role, hist[0].content.as_str()), (Role::User, "q"));
    assert_eq!((hist[1].role, hist[1].content.as_str()), (Role::Assistant, "yes"));
}

#[test]
fn transport_error_fails_at_once() {
    assert!(matches!(after_attempt(0, None), TurnState::Failed));
    let mut h = ChatHistory::new("s".to_string(), 10);
    let _ = begin_turn(&mut h, "q");
    finish_turn(&mut h, &TurnState::Failed);
    assert_eq!(h.len(), 0);
}

#[test]
fn backoff_only_after_first_attempt() {
    assert_eq!(backoff_before(0), 0);
    assert_eq!(backoff_before(1), 1500);
    assert_eq!(backoff_before(2), 1500);
}

#[test]
fn every_reply_follows_a_question() {
    let mut h = ChatHistory::new("s".to_string(), 3);
    for i in 0..10 {
        let _ = begin_turn(&mut h, "q");
        let state = if i % 3 == 1 { TurnState::Failed } else { TurnState::Succeeded("r".to_string()) };
        finish_turn(&mut h, &state);
        let hist = h.history();
        for (k, m) in hist.iter().enumerate() {
            if m.role == Role::Assistant {
                assert!(k > 0);
                assert_eq!(hist[k - 1].role, Role::User);
            }
        }
    }
}
