use kids_ai::config::child_name_from;
use kids_ai::console::{exit_word, is_exit_command, same_text};
use kids_ai::system_prompt::build_system_prompt;

#[test]
fn prompt_names_the_child() {
    let p = build_system_prompt(Some("Ana"));
    assert!(p.starts_with("You are a friendly, patient, and encouraging AI assistant designed for children.\nYou are talking to a child named Ana. Use their name"));
    assert!(p.ends_with("toys, animals, food, games, etc."));
}

#[test]
fn prompt_without_name() {
    let p = build_system_prompt(None);
    assert!(p.starts_with("You are a friendly, patient, and encouraging AI assistant designed for children.\n\nFollow these rules strictly:"));
    assert!(!p.contains("child named"));
}

#[test]
fn empty_child_name_counts_as_none() {
    assert_eq!(child_name_from(Some(String::new())), None);
    assert_eq!(child_name_from(Some("Bo".to_string())), Some("Bo".to_string()));
    assert_eq!(child_name_from(None), None);
}

#[test]
fn exit_words_in_any_case() {
    assert!(is_exit_command("QUIT"));
    assert!(is_exit_command("Exit"));
    assert!(is_exit_command("bye"));
    assert!(!is_exit_command("byebye"));
    assert!(!is_exit_command("hello"));
    assert!(exit_word("quit"));
    assert!(!exit_word("Quit"));
    assert!(same_text("abc", "abc"));
    assert!(!same_text("abc", "abd"));
}
