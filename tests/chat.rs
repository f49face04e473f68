use kids_ai::chat::{ChatHistory, Message, Role};

fn roles_and_texts(v: &[Message]) -> Vec<(Role, String)> {
    v.iter().map(|m| (m.role, m.content.clone())).collect()
}

#[test]
fn capacity_two_keeps_only_last_question() {
    let mut h = ChatHistory::new("sys".to_string(), 2);
    h.add_user_message("a");
    h.add_assistant_message("b");
    h.add_user_message("c");
    h.add_assistant_message("d");
    h.add_user_message("e");
    assert_eq!(roles_and_texts(&h.history()), vec![(Role::User, "e".to_string())]);
}

#[test]
fn length_never_exceeds_capacity() {
    let mut h = ChatHistory::new("sys".to_string(), 3);
    for i in 0..20 {
        if i % 3 == 0 {
            h.add_assistant_message("r");
        } else {
            h.add_user_message("q");
        }
        assert!(h.len() <= 3);
    }
}

#[test]
fn history_never_opens_with_reply() {
    let mut h = ChatHistory::new("sys".to_string(), 4);
    h.add_assistant_message("orphan");
    assert_eq!(h.len(), 0);
    for i in 0..15 {
        if i % 2 == 0 {
            h.add_user_message("q");
        } else {
            h.add_assistant_message("r");
        }
        let msgs = h.build_api_messages();
        assert_eq!(msgs[0].role, Role::System);
        if msgs.len() > 1 {
            assert_ne!(msgs[1].role, Role::Assistant);
        }
    }
}

#[test]
fn consecutive_leading_replies_all_dropped() {
    let mut h = ChatHistory::new("sys".to_string(), 3);
    h.add_user_message("q1");
    h.add_assistant_message("r1");
    h.add_assistant_message("r2");
    h.add_assistant_message("r3");
    // capacity trim leaves r1, r2, r3; all three replies are then dropped
    assert_eq!(h.len(), 0);
}

#[test]
fn api_messages_start_with_system_prompt() {
    let mut h = ChatHistory::new("be kind".to_string(), 5);
    h.add_user_message("hi");
    h.add_assistant_message("hello");
    let msgs = h.build_api_messages();
    assert_eq!(
        roles_and_texts(&msgs),
        vec![
            (Role::System, "be kind".to_string()),
            (Role::User, "hi".to_string()),
            (Role::Assistant, "hello".to_string()),
        ]
    );
}

#[test]
fn api_messages_are_a_snapshot() {
    let mut h = ChatHistory::new("s".to_string(), 5);
    h.add_user_message("hi");
    let msgs = h.build_api_messages();
    h.add_assistant_message("later");
    assert_eq!(msgs.len(), 2);
}

#[test]
fn pop_removes_only_a_trailing_question() {
    let mut h = ChatHistory::new("s".to_string(), 5);
    h.add_user_message("q");
    h.add_assistant_message("r");
    h.pop_last_user_message();
    assert_eq!(h.len(), 2);
    h.add_user_message("q2");
    h.pop_last_user_message();
    assert_eq!(
        roles_and_texts(&h.history()),
        vec![(Role::User, "q".to_string()), (Role::Assistant, "r".to_string())]
    );
}

#[test]
fn zero_capacity_holds_nothing() {
    let mut h = ChatHistory::new("s".to_string(), 0);
    h.add_user_message("q");
    assert_eq!(h.len(), 0);
}

#[test]
fn role_names() {
    assert_eq!(Role::System.as_str(), "system");
    assert_eq!(Role::User.as_str(), "user");
    assert_eq!(Role::Assistant.as_str(), "assistant");
}
