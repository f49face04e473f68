use kids_ai::wrap::WordWrapper;

fn render(width: usize, col: usize, tokens: &[&str]) -> String {
    let mut w = WordWrapper::new(width, col);
    let mut out = String::new();
    for t in tokens {
        out.push_str(&w.push(t));
    }
    out.push_str(&w.finish());
    out
}

fn no_blanks(s: &str) -> String {
    s.chars().filter(|c| !matches!(c, ' ' | '\t' | '\n')).collect()
}

#[test]
fn wraps_words_at_width() {
    assert_eq!(render(10, 0, &["hello world foo"]), "hello \nworld foo");
}

#[test]
fn word_split_across_tokens_stays_whole() {
    assert_eq!(render(10, 0, &["hel", "lo wo", "rld"]), "hello \nworld");
}

#[test]
fn newline_resets_column() {
    assert_eq!(render(8, 4, &["abc\ndefgh ij"]), "abc\ndefgh ij");
}

#[test]
fn prefix_column_counts() {
    assert_eq!(render(8, 4, &["abcde"]), "\nabcde");
}

#[test]
fn space_at_line_start_is_dropped() {
    assert_eq!(render(10, 0, &["  hi"]), "hi");
}

#[test]
fn word_filling_the_line_suppresses_the_space() {
    assert_eq!(render(5, 0, &["abcde fg"]), "abcde\nfg");
}

#[test]
fn long_word_is_flushed_at_end_of_token() {
    let mut w = WordWrapper::new(4, 0);
    assert_eq!(w.push("abcdef"), "abcdef");
    assert_eq!(w.push("gh"), "");
    assert_eq!(w.finish(), "\ngh");
}

#[test]
fn content_survives_any_chunking() {
    let text = "The quick brown fox\tjumps over\nthe lazy dog, again and again.";
    let whole = render(12, 4, &[text]);
    let chars: Vec<String> = text.chars().map(|c| c.to_string()).collect();
    let refs: Vec<&str> = chars.iter().map(|s| s.as_str()).collect();
    let single = render(12, 4, &refs);
    let chunks = render(12, 4, &[&text[..7], &text[7..20], &text[20..]]);
    assert_eq!(no_blanks(&whole), no_blanks(text));
    assert_eq!(no_blanks(&single), no_blanks(text));
    assert_eq!(no_blanks(&chunks), no_blanks(text));
}

#[test]
fn lines_fit_unless_one_word() {
    let text = "a bb ccc dddd eeeee ffffffffffffff gg h iii";
    let out = render(8, 0, &[text]);
    for line in out.split('\n') {
        assert!(line.chars().count() <= 8 || !line.contains(' '), "line {:?}", line);
    }
}
