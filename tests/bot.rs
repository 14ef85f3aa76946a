use pizzabot::{is_valid_end, Pizzabot, Start};

fn start(word: &str, prev: Option<&str>) -> Start {
    Start { word: word.to_string(), prev: prev.map(|p| p.to_string()) }
}

#[test]
fn empty_message_changes_nothing() {
    let mut b = Pizzabot::new();
    b.add_message("c", "hello there");
    b.add_message("c", "");
    assert_eq!(b.last_message_of("c"), Some("hello there".to_string()));
    assert_eq!(b.length_count_of(2), 1);
    assert_eq!(b.length_count_of(0), 0);
    assert_eq!(b.word_count("hello", "there"), 1);
    assert_eq!(b.volume(), 2);
}

#[test]
fn primed_context_seeds_first_word_transition() {
    let mut b = Pizzabot::new();
    b.set_message("c", "hello there");
    assert_eq!(b.last_message_of("c"), Some("hello there".to_string()));
    assert_eq!(b.length_count_of(2), 0);
    assert_eq!(b.word_count("hello", "there"), 0);
    b.add_message("c", "foo bar");
    assert_eq!(b.start_count_of("there", &start("foo", Some("hello"))), 1);
    assert_eq!(b.word_count("foo", "bar"), 1);
    assert_eq!(b.last_message_of("c"), Some("foo bar".to_string()));
}

#[test]
fn repeated_pairs_are_counted() {
    let mut b = Pizzabot::new();
    b.add_message("c", "the cat sat");
    b.add_message("c", "the cat ran");
    assert!(b.word_count("the", "cat") >= 2);
    assert_eq!(b.word_count("cat", "sat"), 1);
    assert_eq!(b.word_count("cat", "ran"), 1);
    assert_eq!(b.length_count_of(3), 2);
    assert_eq!(b.start_count_of("sat", &start("the", Some("cat"))), 1);
}

#[test]
fn transition_keys_are_lowercased_and_values_keep_case() {
    let mut b = Pizzabot::new();
    b.add_message("c", "The Cat");
    assert_eq!(b.word_count("the", "Cat"), 1);
    assert_eq!(b.word_count("The", "Cat"), 0);
    assert_eq!(b.word_count("the", "cat"), 0);
}

#[test]
fn single_word_previous_message_has_no_second_last() {
    let mut b = Pizzabot::new();
    b.add_message("c", "Hi");
    b.add_message("c", "yo there");
    assert_eq!(b.start_count_of("hi", &start("yo", None)), 1);
}

#[test]
fn channels_keep_separate_context() {
    let mut b = Pizzabot::new();
    b.add_message("a", "one");
    b.add_message("b", "two");
    b.add_message("a", "three");
    assert_eq!(b.start_count_of("one", &start("three", None)), 1);
    assert_eq!(b.start_count_of("two", &start("three", None)), 0);
    assert_eq!(b.last_message_of("b"), Some("two".to_string()));
    assert_eq!(b.last_message_of("z"), None);
}

#[test]
fn valid_end_examples() {
    assert!(!is_valid_end("the"));
    assert!(is_valid_end("pizza"));
    assert!(!is_valid_end("going,"));
    assert!(!is_valid_end("The"));
    assert!(!is_valid_end("THEYRE"));
    assert!(!is_valid_end("you're"));
    assert!(!is_valid_end("we'll"));
    assert!(!is_valid_end("rock&"));
    assert!(!is_valid_end("well-"));
    assert!(is_valid_end("theme"));
    assert!(is_valid_end(""));
}

#[test]
fn untrained_model_gives_no_reply() {
    let b = Pizzabot::new();
    assert_eq!(b.get_reply("I want pizza"), None);
    assert_eq!(b.get_reply(""), None);
}

#[test]
fn end_to_end_reply() {
    let mut b = Pizzabot::new();
    b.add_message("c", "I want pizza");
    b.add_message("c", "pizza is great");
    assert_eq!(b.get_reply("I want pizza"), Some("pizza is great".to_string()));
    assert_eq!(b.get_reply("PIZZA"), Some("pizza is great".to_string()));
    assert_eq!(b.get_reply("nothing known"), None);
}

#[test]
fn reply_walk_is_bounded_by_length_and_ending_retries() {
    let mut b = Pizzabot::new();
    b.add_message("c", "x");
    b.add_message("c", "a a");
    // After "x" comes "a"; lengths are 1 and 2; "a" always leads to "a", which is never a valid end.
    for _ in 0..50 {
        let r = b.get_reply("x").unwrap();
        let n = r.split(' ').count();
        assert!(n >= 1 + 1 + 5 - 1 && n <= 2 + 1 + 5, "{}", r);
        assert!(r.split(' ').all(|w| w == "a"));
    }
}

#[test]
fn prefer_prev_weighs_matching_starts() {
    let mut b = Pizzabot::new();
    b.add_message("c", "red end");
    b.add_message("c", "alpha");
    b.add_message("c", "blue end");
    b.add_message("c", "beta");
    assert_eq!(b.start_count_of("end", &start("alpha", Some("red"))), 1);
    assert_eq!(b.start_count_of("end", &start("beta", Some("blue"))), 1);
    let mut alpha = 0usize;
    for _ in 0..4000 {
        let r = b.get_reply("red end").unwrap();
        if r.starts_with("alpha") {
            alpha += 1;
        }
    }
    assert!(alpha > 2800 && alpha < 3600, "{}", alpha);
}

#[test]
fn legacy_text_primes_marked_lines_and_trains_others() {
    let mut b = Pizzabot::new();
    b.load_legacy_text("c", "#!hello #!there\nfoo bar\n", "#!");
    // The marked line becomes context with the leading marker stripped; the empty last line is ignored.
    assert_eq!(b.start_count_of("#!there", &start("foo", Some("hello"))), 1);
    assert_eq!(b.length_count_of(2), 1);
    assert_eq!(b.word_count("hello", "#!there"), 0);
    assert_eq!(b.last_message_of("c"), Some("foo bar".to_string()));
}

#[test]
fn legacy_text_strips_only_the_leading_marker() {
    let mut b = Pizzabot::new();
    b.load_legacy_text("c", "##", "#");
    assert_eq!(b.last_message_of("c"), Some("#".to_string()));
}
