use rsheet::caesar::shift_char;
use rsheet::dice::{roll, Coin, Die, Roll};
use rsheet::lights::{Light, Tree};
use rsheet::puzzle::{calculate, operate, TARGET};
use rsheet::sentences::{
    count_sentence_matches, find_sentences_containing, text_occurs, Count, SearchResult,
};
use rsheet::tribonacci::{compute_tribonacci, Tribonacci, TribonacciError};
use rsheet::words::trim_text;

#[test]
fn operators_compute() {
    assert_eq!(operate(7, 3, '+'), Ok(10));
    assert_eq!(operate(7, 3, '-'), Ok(4));
    assert_eq!(operate(7, 3, '*'), Ok(21));
    assert_eq!(operate(7, 3, '/'), Ok(2));
    assert_eq!(operate(-7, 3, '/'), Ok(-2));
    assert_eq!(operate(7, -3, '/'), Ok(-2));
    assert_eq!(operate(-7, -3, '/'), Ok(2));
    assert_eq!(operate(0, 3, '/'), Ok(0));
    assert_eq!(operate(i32::MAX, -1, '/'), Ok(-i32::MAX));
    assert_eq!(operate(i32::MIN, 1, '/'), Ok(i32::MIN));
    assert_eq!(operate(i32::MAX, 0, '+'), Ok(i32::MAX));
    assert_eq!(operate(i32::MIN, 0, '-'), Ok(i32::MIN));
}

#[test]
fn division_that_fails_is_an_error() {
    assert_eq!(operate(7, 0, '/'), Err(()));
    assert_eq!(operate(0, 0, '/'), Err(()));
    assert_eq!(operate(i32::MIN, -1, '/'), Err(()));
}

#[test]
fn arrangement_that_gives_ten_solves_the_puzzle() {
    assert_eq!(TARGET, 10);
    // ((((1 + 2) * 3) - 4) + 5) = 10
    assert_eq!(calculate(vec![1, 2, 3, 4, 5], vec!['+', '*', '-', '+']), Ok(true));
    // ((((5 * 4) / 3) + 2) + 1) = 9
    assert_eq!(calculate(vec![5, 4, 3, 2, 1], vec!['*', '/', '+', '+']), Ok(false));
    // ((((9 - 9) * 9) + 9) + 1) = 10
    assert_eq!(calculate(vec![9, 9, 9, 9, 1], vec!['-', '*', '+', '+']), Ok(true));
}

#[test]
fn arrangement_that_divides_by_zero_is_an_error() {
    assert_eq!(calculate(vec![1, 0, 3, 4, 5], vec!['/', '*', '-', '+']), Err(()));
    assert_eq!(calculate(vec![1, 1, 3, 4, 0], vec!['-', '*', '-', '/']), Err(()));
}

#[test]
fn first_ten_tribonacci_numbers() {
    assert_eq!(
        compute_tribonacci(Some(10), "unused".to_string()),
        Ok(Tribonacci { values: vec![1, 1, 1, 3, 5, 9, 17, 31, 57, 105], sum: 230 })
    );
}

#[test]
fn first_three_numbers_are_always_given() {
    for size in 0..=3usize {
        assert_eq!(
            compute_tribonacci(Some(size), "unused".to_string()),
            Ok(Tribonacci { values: vec![1, 1, 1], sum: size as u128 })
        );
    }
    assert_eq!(
        compute_tribonacci(Some(4), "unused".to_string()),
        Ok(Tribonacci { values: vec![1, 1, 1, 3], sum: 6 })
    );
}

#[test]
fn tribonacci_numbers_that_still_fit() {
    let run = compute_tribonacci(Some(140), "unused".to_string()).unwrap();
    assert_eq!(run.values.len(), 140);
    assert_eq!(run.values[139], run.values[138] + run.values[137] + run.values[136]);
    assert_eq!(run.sum, run.values.iter().sum::<u128>());
}

#[test]
fn missing_size_is_an_error_with_the_message() {
    assert_eq!(
        compute_tribonacci(None, "Please enter a valid size".to_string()),
        Err(TribonacciError("Please enter a valid size".to_string()))
    );
}

#[test]
fn rolls_are_within_the_sides() {
    assert!((1..=2).contains(&roll(Coin)));
    assert!((1..=4).contains(&roll(Die::D4)));
    assert!((1..=6).contains(&roll(Die::D6)));
    assert!((1..=8).contains(&roll(Die::D8)));
    assert!((1..=10).contains(&roll(Die::D10)));
    assert!((1..=12).contains(&roll(Die::D12)));
    assert!((1..=20).contains(&roll(Die::D20)));
}

#[test]
fn every_roll_starts_from_the_same_seed() {
    assert_eq!(roll(Die::D20), roll(Die::D20));
    assert_eq!(Die::D6.roll_trait_fn(), roll(Die::D6));
    assert_eq!(Coin.roll_trait_fn(), roll(Coin));
}

#[test]
fn roll_is_not_just_the_number_of_sides() {
    let rolls =
        [roll(Die::D4), roll(Die::D6), roll(Die::D8), roll(Die::D10), roll(Die::D12), roll(Die::D20)];
    assert_ne!(rolls, [4, 6, 8, 10, 12, 20]);
}

#[test]
fn text_is_trimmed_at_both_ends() {
    assert_eq!(trim_text("  a b \t\n"), "a b");
    assert_eq!(trim_text("a"), "a");
    assert_eq!(trim_text(""), "");
    assert_eq!(trim_text(" \u{a0} "), "");
    assert_eq!(trim_text("\u{3000}\u{e9}t\u{e9} "), "\u{e9}t\u{e9}");
}

#[test]
fn text_occurs_in_text() {
    assert!(text_occurs("I am Tom", "Tom"));
    assert!(text_occurs("I am Tom", "I am Tom"));
    assert!(text_occurs("I am Tom", ""));
    assert!(text_occurs("", ""));
    assert!(text_occurs("aab", "ab"));
    assert!(!text_occurs("I am Tom", "tom"));
    assert!(!text_occurs("Tom", "I am Tom"));
    assert!(!text_occurs("", "a"));
}

#[test]
fn sentences_stand_between_full_stops() {
    let found = find_sentences_containing("Hello. I am Tom . Goodbye", "o");
    assert_eq!(found.matches, vec!["Hello", "I am Tom", "Goodbye"]);
    assert_eq!(found.contains, "o");
}

#[test]
fn sentences_without_the_text_are_left_out() {
    let found = find_sentences_containing("Hello. I am Tom. Tom is here. Bye.", "Tom");
    assert_eq!(found.matches, vec!["I am Tom", "Tom is here"]);
}

#[test]
fn what_follows_the_last_full_stop_is_always_a_sentence() {
    let found = find_sentences_containing("Hello. I am Tom . Goodbye", "Tom");
    assert_eq!(found.matches, vec!["I am Tom", "Goodbye"]);
    let found = find_sentences_containing("no full stop here", "absent");
    assert_eq!(found.matches, vec!["no full stop here"]);
}

#[test]
fn empty_sentences_are_none() {
    let found = find_sentences_containing("..  . a ..b.   ", "");
    assert_eq!(found.matches, vec!["a", "b"]);
    assert_eq!(find_sentences_containing("", "").matches, Vec::<&str>::new());
    assert_eq!(find_sentences_containing("...", "").matches, Vec::<&str>::new());
}

#[test]
fn sentences_of_other_scripts() {
    let found = find_sentences_containing("\u{e9}t\u{e9} chaud. hiver froid. fin", "froid");
    assert_eq!(found.matches, vec!["hiver froid", "fin"]);
}

#[test]
fn findings_are_counted_over_all_searches() {
    let text = "one. two. three. two. one. two";
    let searches = vec![
        find_sentences_containing(text, "o"),
        find_sentences_containing(text, "t"),
        SearchResult { matches: vec![], contains: "x" },
    ];
    assert_eq!(searches[0].matches, vec!["one", "two", "two", "one", "two"]);
    assert_eq!(searches[1].matches, vec!["two", "three", "two", "two"]);
    assert_eq!(
        count_sentence_matches(searches),
        vec![
            Count { sentence: "one", times: 2 },
            Count { sentence: "two", times: 6 },
            Count { sentence: "three", times: 1 },
        ]
    );
    assert_eq!(count_sentence_matches(vec![]), vec![]);
}

#[test]
fn new_light_has_no_neighbours() {
    let light = Light::new(7);
    assert_eq!(light.brightness, 7);
    assert!(light.left.is_none());
    assert!(light.right.is_none());
}

#[test]
fn new_tree_is_one_dark_light() {
    let tree = Tree::new();
    assert_eq!(tree.total_lights, 1);
    assert_eq!(tree.total_brightness, 0);
    assert_eq!(tree.root.brightness, 0);
    assert!(tree.root.left.is_none() && tree.root.right.is_none());
}

#[test]
fn lights_are_put_to_either_side() {
    let mut light = Light::new(1);
    light.set(5);
    light.create_left(9);
    assert_eq!(light.brightness, 5);
    assert_eq!(light.left.as_ref().unwrap().brightness, 0);
    assert!(light.right.is_none());
    light.left.as_mut().unwrap().set(3);
    light.create_right(0);
    assert_eq!(light.left.as_ref().unwrap().brightness, 3);
    assert_eq!(light.right.as_ref().unwrap().brightness, 0);
    light.create_left(0);
    assert_eq!(light.left.as_ref().unwrap().brightness, 0);
}

#[test]
fn single_character_is_shifted() {
    assert_eq!(shift_char('a', 1), 'b');
    assert_eq!(shift_char('z', 1), 'a');
    assert_eq!(shift_char('Z', 27), 'A');
    assert_eq!(shift_char('c', -2), 'a');
    assert_eq!(shift_char('c', -28), 'a');
    assert_eq!(shift_char('!', 5), '!');
    assert_eq!(shift_char('!', i32::MIN), '!');
}
