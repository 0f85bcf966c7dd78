use passphrase::generator::generate;
use passphrase::generator::generate_batch;
use passphrase::generator::join;
use passphrase::generator::PasswordError;

fn words(items: &[&str]) -> Vec<String> {
    items.iter().map(|w| w.to_string()).collect()
}

#[test]
fn join_puts_the_separator_between_consecutive_words() {
    assert_eq!(join(&words(&["cat", "dog", "sun"]), "-"), "cat-dog-sun");
    assert_eq!(join(&words(&["cat"]), "-"), "cat");
    assert_eq!(join(&words(&[]), "-"), "");
    assert_eq!(join(&words(&["a", "b"]), "::"), "a::b");
    assert_eq!(join(&words(&["a", "b"]), ""), "ab");
}

#[test]
fn generate_on_empty_wordlist_fails() {
    let empty = words(&[]);
    assert_eq!(generate(&empty, 4, "-"), Err(PasswordError::EmptyWordList));
    assert_eq!(generate(&empty, 0, "-"), Err(PasswordError::EmptyWordList));
}

#[test]
fn generate_with_zero_words_gives_the_empty_password() {
    let list = words(&["cat", "dog", "sun"]);
    assert_eq!(generate(&list, 0, "-"), Ok(String::new()));
}

#[test]
fn generate_from_a_single_word_list_is_determined() {
    let list = words(&["abc"]);
    assert_eq!(generate(&list, 4, "-"), Ok("abc-abc-abc-abc".to_string()));
    assert_eq!(generate(&list, 1, "-"), Ok("abc".to_string()));
}

#[test]
fn generated_password_is_sampled_words_joined() {
    // Word list ["cat", "dog", "sun"], three words, separator "-": the
    // result must be three of those words with a dash between them.
    let list = words(&["cat", "dog", "sun"]);
    for _ in 0..50 {
        let p = generate(&list, 3, "-").unwrap();
        let segments: Vec<&str> = p.split('-').collect();
        assert_eq!(segments.len(), 3);
        for s in segments {
            assert!(s == "cat" || s == "dog" || s == "sun");
        }
    }
}

#[test]
fn generated_password_holds_one_separator_less_than_words() {
    let list = words(&["cat", "dog", "sun", "oak"]);
    for count in 1..6u8 {
        let p = generate(&list, count, "-").unwrap();
        let dashes = p.chars().filter(|c| *c == '-').count();
        assert_eq!(dashes, (count - 1) as usize);
    }
}

#[test]
fn batch_gives_the_requested_number_of_passwords() {
    let list = words(&["cat", "dog", "sun"]);
    let batch = generate_batch(&list, 250, 4, "-").unwrap();
    assert_eq!(batch.len(), 250);
    for p in &batch {
        let segments: Vec<&str> = p.split('-').collect();
        assert_eq!(segments.len(), 4);
        for s in segments {
            assert!(s == "cat" || s == "dog" || s == "sun");
        }
    }
}

#[test]
fn batch_of_zero_passwords_succeeds_on_any_list() {
    let empty = words(&[]);
    assert_eq!(generate_batch(&empty, 0, 4, "-"), Ok(vec![]));
}

#[test]
fn batch_on_empty_wordlist_fails() {
    let empty = words(&[]);
    assert_eq!(
        generate_batch(&empty, 3, 4, "-"),
        Err(PasswordError::EmptyWordList)
    );
}

#[test]
fn each_word_is_drawn_with_roughly_equal_frequency() {
    // Four words, four thousand single-word passwords: each word's count
    // should be near one thousand.  The bounds are loose enough that a
    // uniform source fails them with negligible probability.
    let list = words(&["aa", "bb", "cc", "dd"]);
    let mut counts = [0usize; 4];
    for _ in 0..4000 {
        let p = generate(&list, 1, "-").unwrap();
        let k = list.iter().position(|w| *w == p).unwrap();
        counts[k] += 1;
    }
    for c in counts {
        assert!(c > 800 && c < 1200, "count {} is far from uniform", c);
    }
}
