use kids_ai::notify::{escape_html, qa_chunks, qa_text, split_message, MAX_MESSAGE_LEN};

#[test]
fn exactly_the_limit_is_not_split() {
    let text = "a".repeat(4096);
    let parts = split_message(&text, 4096);
    assert_eq!(parts, vec![text]);
}

#[test]
fn one_over_the_limit_is_split_in_two() {
    let text = "a".repeat(4097);
    let parts = split_message(&text, 4096);
    assert_eq!(parts.len(), 2);
    assert_eq!(parts[0].len(), 4096);
    assert_eq!(parts[1].len(), 1);
}

#[test]
fn split_prefers_last_newline() {
    let parts = split_message("abc\ndefghijkl", 10);
    assert_eq!(parts, vec!["abc".to_string(), "defghijkl".to_string()]);
}

#[test]
fn split_drops_only_one_newline() {
    let parts = split_message("abcd\n\n\nefghijklmn", 6);
    assert_eq!(
        parts,
        vec!["abcd\n".to_string(), String::new(), "efghij".to_string(), "klmn".to_string()]
    );
}

#[test]
fn split_never_cuts_a_character() {
    let parts = split_message("éééé", 3);
    assert_eq!(parts, vec!["é".to_string(); 4]);
    let parts = split_message("aéé", 4);
    assert_eq!(parts, vec!["aé".to_string(), "é".to_string()]);
}

#[test]
fn empty_message_is_one_segment() {
    assert_eq!(split_message("", 10), vec![String::new()]);
}

#[test]
fn rejoining_segments_gives_the_message() {
    let text = "line one\nline two is longer\n\nthird ünïcödé line\nend";
    for max in 4..30 {
        let parts = split_message(text, max);
        for p in &parts {
            assert!(p.len() <= max);
        }
        // a newline that follows a cut is the one that was dropped
        let mut rebuilt = String::new();
        for (i, p) in parts.iter().enumerate() {
            if i > 0 && text[rebuilt.len()..].starts_with('\n') {
                rebuilt.push('\n');
            }
            rebuilt.push_str(p);
        }
        assert_eq!(rebuilt, text);
    }
}

#[test]
fn html_is_escaped() {
    assert_eq!(escape_html("a<b>&c"), "a&lt;b&gt;&amp;c");
    assert_eq!(escape_html("plain"), "plain");
}

#[test]
fn qa_text_layout() {
    assert_eq!(
        qa_text("2<3?", "yes & no"),
        "<b>Question:</b>\n2&lt;3?\n\n<b>Answer:</b>\nyes &amp; no"
    );
}

#[test]
fn qa_chunks_split_long_answers() {
    let answer = "x".repeat(5000);
    let parts = qa_chunks("q", &answer);
    assert_eq!(parts.len(), 3);
    assert!(parts.iter().all(|p| p.len() <= MAX_MESSAGE_LEN));
    assert_eq!(parts[0], "<b>Question:</b>\nq\n\n<b>Answer:</b>");
}
