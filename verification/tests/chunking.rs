use snout::chunker::{chunk_text, overlap_tail, split_into_sentences};

fn strings(v: &[&str]) -> Vec<String> {
    v.iter().map(|s| s.to_string()).collect()
}

#[test]
fn empty_text_has_no_chunks() {
    assert_eq!(chunk_text(""), Vec::<String>::new());
}

#[test]
fn blank_text_has_no_chunks() {
    assert_eq!(chunk_text("   \n\t \u{3000} "), Vec::<String>::new());
}

#[test]
fn short_text_is_one_chunk() {
    assert_eq!(chunk_text("Hello world. How are you?"), strings(&["Hello world. How are you?"]));
}

#[test]
fn whitespace_is_collapsed() {
    assert_eq!(chunk_text("  Hello \n\n world\t again  "), strings(&["Hello world again"]));
}

#[test]
fn chunks_ignore_whitespace_differences() {
    assert_eq!(chunk_text("One. Two three!"), chunk_text("\n One.\t\tTwo   three! \n"));
}

#[test]
fn long_sentences_are_not_cut() {
    let s1 = format!("{}.", "x".repeat(299));
    let s2 = format!("{}.", "y".repeat(299));
    let text = format!("{} {}", s1, s2);
    let chunks = chunk_text(&text);
    // the last 80 characters of the first chunk hold no space and start inside a
    // word, so the second chunk has no overlap
    assert_eq!(chunks, vec![s1.clone(), s2.clone()]);
}

#[test]
fn the_joining_space_counts_toward_the_size() {
    let s1 = format!("{} tail.", "w".repeat(400));
    let s2 = format!("{}.", "x".repeat(100));
    let s3 = format!("{}.", "y".repeat(392));
    let text = format!("{} {} {}", s1, s2, s3);
    let chunks = chunk_text(&text);
    // "tail. " + s2 is 107 characters; with a space and s3 it would be 501
    assert_eq!(chunks, vec![s1.clone(), format!("tail. {}", s2), s3.clone()]);
    for c in &chunks {
        assert!(c.chars().count() <= 500);
    }
}

#[test]
fn many_sentences_make_overlapping_chunks() {
    let words = ["alpha", "beta", "gamma", "delta", "epsilon", "zeta", "eta", "theta"];
    let mut text = String::new();
    for i in 0..30 {
        let sentence: Vec<&str> = (0..6).map(|k| words[(i + k) % 8]).collect();
        text.push_str(&sentence.join(" "));
        text.push_str(". ");
    }
    let chunks = chunk_text(&text);
    let expected = strings(&[
        "alpha beta gamma delta epsilon zeta. beta gamma delta epsilon zeta eta. gamma delta epsilon zeta eta theta. delta epsilon zeta eta theta alpha. epsilon zeta eta theta alpha beta. zeta eta theta alpha beta gamma. eta theta alpha beta gamma delta. theta alpha beta gamma delta epsilon. alpha beta gamma delta epsilon zeta. beta gamma delta epsilon zeta eta. gamma delta epsilon zeta eta theta. delta epsilon zeta eta theta alpha. epsilon zeta eta theta alpha beta. zeta eta theta alpha beta gamma.",
        "alpha. epsilon zeta eta theta alpha beta. zeta eta theta alpha beta gamma. eta theta alpha beta gamma delta. theta alpha beta gamma delta epsilon. alpha beta gamma delta epsilon zeta. beta gamma delta epsilon zeta eta. gamma delta epsilon zeta eta theta. delta epsilon zeta eta theta alpha. epsilon zeta eta theta alpha beta. zeta eta theta alpha beta gamma. eta theta alpha beta gamma delta. theta alpha beta gamma delta epsilon. alpha beta gamma delta epsilon zeta.",
        "theta alpha beta gamma delta epsilon. alpha beta gamma delta epsilon zeta. beta gamma delta epsilon zeta eta. gamma delta epsilon zeta eta theta. delta epsilon zeta eta theta alpha. epsilon zeta eta theta alpha beta. zeta eta theta alpha beta gamma.",
    ]);
    assert_eq!(chunks, expected);
}

#[test]
fn each_chunk_starts_with_the_end_of_the_previous_one() {
    let words = ["alpha", "beta", "gamma", "delta", "epsilon", "zeta", "eta", "theta"];
    let mut text = String::new();
    for i in 0..40 {
        let sentence: Vec<&str> = (0..5).map(|k| words[(i * 3 + k) % 8]).collect();
        text.push_str(&sentence.join(" "));
        text.push_str("! ");
    }
    let chunks = chunk_text(&text);
    assert!(chunks.len() > 1);
    for pair in chunks.windows(2) {
        let prev: Vec<char> = pair[0].chars().collect();
        let next: Vec<char> = pair[1].chars().collect();
        // a word-aligned end of the previous chunk, then a space; missing only when
        // the last 80 characters of the previous chunk hold no space
        let found = (1..=80.min(prev.len())).any(|n| {
            let starts_word = n == prev.len() || prev[prev.len() - n - 1] == ' ';
            starts_word
                && n < next.len()
                && prev[prev.len() - n..] == next[..n]
                && next[n] == ' '
        });
        let window = &prev[prev.len() - 80.min(prev.len())..];
        assert!(found || !window.contains(&' '));
        assert!(found);
    }
    for sentence in split_into_sentences(&text) {
        assert!(chunks.iter().any(|c| c.contains(&sentence)));
    }
    for c in &chunks {
        assert!(!c.is_empty());
        assert_eq!(c.trim(), c.as_str());
        assert!(c.chars().count() <= 500);
        assert!(!c.contains("  "));
        assert!(c.chars().all(|ch| ch == ' ' || !ch.is_whitespace()));
    }
}

#[test]
fn sentences_split_after_terminators() {
    assert_eq!(
        split_into_sentences("Hi! Who?  Me.   trailing words "),
        strings(&["Hi!", "Who?", "Me.", "trailing words"])
    );
}

#[test]
fn repeated_terminators_make_short_sentences() {
    assert_eq!(split_into_sentences("a...b"), strings(&["a.", ".", ".", "b"]));
}

#[test]
fn blank_pieces_are_not_sentences() {
    assert_eq!(split_into_sentences(" . ! "), strings(&[".", "!"]));
    assert_eq!(split_into_sentences("   "), Vec::<String>::new());
}

#[test]
fn overlap_tail_starts_at_a_word() {
    assert_eq!(overlap_tail("hello world"), "world");
    assert_eq!(overlap_tail(" hello"), "hello");
}

#[test]
fn overlap_tail_without_space_is_the_window() {
    assert_eq!(overlap_tail("abc"), "abc");
    assert_eq!(overlap_tail(""), "");
    let after_space = format!(" {}", "z".repeat(80));
    assert_eq!(overlap_tail(&after_space), "z".repeat(80));
}

#[test]
fn overlap_tail_never_starts_inside_a_word() {
    let long = "z".repeat(100);
    assert_eq!(overlap_tail(&long), "");
    let text = format!("ab{}", "c".repeat(80));
    assert_eq!(overlap_tail(&text), "");
}

#[test]
fn overlap_tail_takes_the_last_eighty_characters() {
    let text = format!("{} {}", "a".repeat(70), "b".repeat(30));
    // last 80: 49 a's, a space, 30 b's; the tail starts after that space
    assert_eq!(overlap_tail(&text), "b".repeat(30));
}

#[test]
fn unicode_characters_are_counted_as_characters() {
    let text = format!("{} {}", "é".repeat(90), "ü".repeat(10));
    assert_eq!(overlap_tail(&text), "ü".repeat(10));
}
