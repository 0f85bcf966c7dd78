use passphrase::wordlist::filter_words;
use passphrase::wordlist::load_words;
use passphrase::wordlist::split_words;

fn words(items: &[&str]) -> Vec<String> {
    items.iter().map(|w| w.to_string()).collect()
}

#[test]
fn filter_keeps_exactly_the_words_within_bounds() {
    let input = words(&["cat", "elephant", "ox", "planet", "abcdefg", "abc"]);
    let kept = filter_words(&input, 3, 6);
    assert_eq!(kept, words(&["cat", "planet", "abc"]));
}

#[test]
fn filter_bounds_are_inclusive() {
    let input = words(&["ab", "abc", "abcdef", "abcdefg"]);
    let kept = filter_words(&input, 3, 6);
    assert_eq!(kept, words(&["abc", "abcdef"]));
}

#[test]
fn filter_keeps_order_and_duplicates() {
    let input = words(&["dog", "cat", "dog", "x", "cat"]);
    let kept = filter_words(&input, 3, 3);
    assert_eq!(kept, words(&["dog", "cat", "dog", "cat"]));
}

#[test]
fn filter_counts_codepoints_not_bytes() {
    // "café" is four characters but five bytes; a byte count would drop it.
    let input = words(&["café", "naïve", "a"]);
    let kept = filter_words(&input, 4, 5);
    assert_eq!(kept, words(&["café", "naïve"]));
}

#[test]
fn filter_with_crossed_bounds_keeps_nothing() {
    let input = words(&["cat", "dog"]);
    let kept = filter_words(&input, 5, 2);
    assert_eq!(kept, words(&[]));
}

#[test]
fn split_drops_empty_lines_and_keeps_order() {
    let got = split_words("cat\ndog\n\nsun\n");
    assert_eq!(got, words(&["cat", "dog", "sun"]));
}

#[test]
fn split_handles_missing_final_newline() {
    let got = split_words("cat\ndog");
    assert_eq!(got, words(&["cat", "dog"]));
}

#[test]
fn split_strips_carriage_return_before_line_feed() {
    let got = split_words("cat\r\ndog\r\n");
    assert_eq!(got, words(&["cat", "dog"]));
}

#[test]
fn split_keeps_carriage_return_elsewhere() {
    let got = split_words("a\rb\nend\r");
    assert_eq!(got, words(&["a\rb", "end\r"]));
}

#[test]
fn split_of_empty_text_gives_no_words() {
    let got = split_words("");
    assert_eq!(got, words(&[]));
    let got = split_words("\n\n\n");
    assert_eq!(got, words(&[]));
}

#[test]
fn load_splits_then_filters() {
    let text = "cat\nelephant\n\ndog\nox\nsun\n";
    let got = load_words(text, 3, 6);
    assert_eq!(got, words(&["cat", "dog", "sun"]));
}

#[test]
fn load_with_default_bounds_on_mixed_lengths() {
    let text = "by\nriver\nmountainside\nsun\nstone\n";
    let got = load_words(text, 3, 6);
    assert_eq!(got, words(&["river", "sun", "stone"]));
}
