use puzzle_solvers::cards::card::{holds, Card};
use puzzle_solvers::cards::parse::{
    card, find_bar, is_label_token, is_number_token, parser, side,
};
use puzzle_solvers::text::same_text;
use puzzle_solvers::cards::{checked_run, run, sum_scores, Error};

const SAMPLE: &str = "Card 1: 41 48 83 86 17 | 83 86  6 31 17  9 48 53
Card 2: 13 32 20 16 61 | 61 30 68 82 17 32 24 19
Card 3:  1 21 53 59 44 | 69 82 63 72 16 21 14  1
Card 4: 41 92 73 84 69 | 59 84 76 51 58  5 54 83
Card 5: 87 83 26 28 32 | 88 30 70 12 93 22 82 36
Card 6: 31 18 13 56 72 | 74 77 10 23 35 67 36 11";

/// A card that owns the numbers 0 to `owned` and on which 1 to `winning` win.
fn numbered(owned: usize, winning: usize) -> String {
    let mut line = String::from("Card 7:");
    for number in 0..=owned {
        line.push_str(&format!(" {}", number));
    }
    line.push_str(" |");
    for number in 1..=winning {
        line.push_str(&format!(" {}", number));
    }
    line
}

#[test]
fn part_one() {
    let input = "Card 1: 41 48 83 86 17 | 83 86  6 31 17  9 48 53
Card 2: 13 32 20 16 61 | 61 30 68 82 17 32 24 19
Card 3:  1 21 53 59 44 | 69 82 63 72 16 21 14  1
Card 4: 41 92 73 84 69 | 59 84 76 51 58  5 54 83
Card 5: 87 83 26 28 32 | 88 30 70 12 93 22 82 36
Card 6: 31 18 13 56 72 | 74 77 10 23 35 67 36 11";
    let result = run(input);
    assert_eq!(13, result)
}

#[test]
fn sample_scores_card_by_card() {
    let cards = parser(SAMPLE).unwrap();
    let matches: Vec<usize> = cards.iter().map(|card| card.matches()).collect();
    let scores: Vec<u32> = cards.iter().map(|card| card.score()).collect();
    assert_eq!(matches, vec![4, 2, 2, 1, 0, 0]);
    assert_eq!(scores, vec![8, 2, 2, 1, 0, 0]);
    assert_eq!(sum_scores(&cards), Some(13));
    assert_eq!(checked_run(SAMPLE), Ok(13));
}

#[test]
fn card_reads_both_rows() {
    let found = card("Card 1: 41 48 83 86 17 | 83 86  6 31 17  9 48 53").unwrap();
    assert_eq!(found.owned_numbers, vec!["41", "48", "83", "86", "17"]);
    assert_eq!(found.winning_numbers, vec!["83", "86", "6", "31", "17", "9", "48", "53"]);
    assert_eq!(found.matches(), 4);
    assert_eq!(found.score(), 8);
}

#[test]
fn score_is_zero_then_powers_of_two() {
    let expected: [u32; 8] = [0, 1, 2, 4, 8, 16, 32, 64];
    for (matches, points) in expected.iter().enumerate() {
        let line = numbered(matches, 10);
        let found = card(&line).unwrap();
        assert_eq!(found.matches(), matches);
        assert_eq!(found.score(), *points);
        assert_eq!(found.checked_score(), Some(*points));
    }
}

#[test]
fn score_doubles_with_every_further_match() {
    for matches in 1..32 {
        let (fewer, more) = (numbered(matches, 40), numbered(matches + 1, 40));
        let (fewer, more) = (card(&fewer).unwrap().score(), card(&more).unwrap().score());
        assert_eq!(more, 2 * fewer);
    }
}

#[test]
fn score_of_thirty_two_matches_is_the_largest() {
    let line = numbered(32, 32);
    let found = card(&line).unwrap();
    assert_eq!(found.matches(), 32);
    assert_eq!(found.score(), 2_147_483_648);
    assert_eq!(found.checked_score(), Some(2_147_483_648));
    assert_eq!(checked_run(&line), Ok(2_147_483_648));
}

#[test]
fn score_of_thirty_three_matches_does_not_fit() {
    let line = numbered(33, 33);
    let found = card(&line).unwrap();
    assert_eq!(found.matches(), 33);
    assert_eq!(found.checked_score(), None);
    assert_eq!(checked_run(&line), Err(Error::Overflow));
}

#[test]
fn total_beyond_u32_is_an_overflow() {
    let text = format!("{}\n{}", numbered(32, 32), numbered(32, 32));
    let cards = parser(&text).unwrap();
    assert_eq!(sum_scores(&cards), None);
    assert_eq!(checked_run(&text), Err(Error::Overflow));
    let text = format!("{}\n{}", numbered(32, 32), numbered(31, 32));
    assert_eq!(checked_run(&text), Ok(3_221_225_472));
}

#[test]
fn no_shared_number_scores_nothing() {
    let found = card("Card 5: 87 83 26 28 32 | 88 30 70 12 93 22 82 36").unwrap();
    assert_eq!(found.matches(), 0);
    assert_eq!(found.score(), 0);
    assert_eq!(run("Card 5: 87 83 26 28 32 | 88 30 70 12 93 22 82 36"), 0);
    let with = "Card 1: 1 2 | 1 2\nCard 2: 3 | 4\nCard 3: 5 | 5";
    let without = "Card 1: 1 2 | 1 2\nCard 3: 5 | 5";
    assert_eq!(run(with), run(without));
    assert_eq!(run(with), 3);
}

#[test]
fn matches_are_bounded_by_the_shorter_row() {
    for found in parser(SAMPLE).unwrap() {
        let shorter = found.owned_numbers.len().min(found.winning_numbers.len());
        assert!(found.matches() <= shorter);
    }
    let found = card("Card 1: 1 2 3 4 5 6 7 8 9 | 3 2 1").unwrap();
    assert_eq!(found.matches(), 3);
    let found = card("Card 1: 3 2 1 | 1 2 3 4 5 6 7 8 9").unwrap();
    assert_eq!(found.matches(), 3);
}

#[test]
fn owned_number_written_twice_counts_twice() {
    let found = card("Card 1: 7 7 | 7").unwrap();
    assert_eq!(found.matches(), 2);
    assert_eq!(found.score(), 2);
    let found = card("Card 1: 7 | 7 7").unwrap();
    assert_eq!(found.matches(), 1);
    assert_eq!(found.score(), 1);
}

#[test]
fn numbers_match_by_text_not_by_value() {
    let found = card("Card 1: 06 6 007 | 6 7").unwrap();
    assert_eq!(found.matches(), 1);
    assert_eq!(found.score(), 1);
    let built = Card { owned_numbers: vec!["1", "01", "x"], winning_numbers: vec!["01", "x", "é"] };
    assert_eq!(built.matches(), 2);
    assert_eq!(built.score(), 2);
}

#[test]
fn card_built_by_hand_scores_like_a_parsed_one() {
    let built = Card {
        owned_numbers: vec!["41", "48", "83", "86", "17"],
        winning_numbers: vec!["83", "86", "6", "31", "17", "9", "48", "53"],
    };
    assert_eq!(built.matches(), 4);
    assert_eq!(built.score(), 8);
    let empty = Card { owned_numbers: vec![], winning_numbers: vec![] };
    assert_eq!(empty.matches(), 0);
    assert_eq!(empty.score(), 0);
}

#[test]
fn rerun_gives_the_same_total() {
    let first = run(SAMPLE);
    let second = run(SAMPLE);
    assert_eq!(first, second);
    assert_eq!(checked_run(SAMPLE), checked_run(SAMPLE));
    assert_eq!(checked_run("no cards"), checked_run("no cards"));
}

#[test]
fn blanks_may_be_spaces_or_tabs_in_any_number() {
    let found = card("Card\t \t12:\t1   2\t|\t 2  3").unwrap();
    assert_eq!(found.owned_numbers, vec!["1", "2"]);
    assert_eq!(found.winning_numbers, vec!["2", "3"]);
    assert_eq!(run("Card\t \t12:\t1   2\t|\t 2  3"), 1);
}

#[test]
fn line_feed_at_the_end_is_accepted() {
    assert_eq!(checked_run("Card 1: 1 | 1\n"), Ok(1));
    assert_eq!(checked_run("Card 1: 1 | 1\nCard 2: 2 3 | 3 2\n"), Ok(3));
}

#[test]
fn carriage_return_before_line_feed_is_accepted() {
    assert_eq!(checked_run("Card 1: 1 | 1\r\nCard 2: 2 3 | 3 2\r\n"), Ok(3));
    assert_eq!(checked_run("Card 1: 1 | 1\r\nCard 2: 2 3 | 3 2"), Ok(3));
    assert_eq!(checked_run("Card 1: 1 | 1\r"), Err(Error::Parse));
    assert_eq!(checked_run("Card 1: 1 | 1\r\r\n"), Err(Error::Parse));
}

#[test]
fn empty_text_is_a_parse_error() {
    assert_eq!(checked_run(""), Err(Error::Parse));
    assert!(matches!(parser(""), Err(Error::Parse)));
}

#[test]
fn empty_line_is_a_parse_error() {
    assert_eq!(checked_run("\n"), Err(Error::Parse));
    assert_eq!(checked_run("Card 1: 1 | 1\n\n"), Err(Error::Parse));
    assert_eq!(checked_run("Card 1: 1 | 1\n\nCard 2: 2 | 2"), Err(Error::Parse));
    assert_eq!(checked_run("\nCard 1: 1 | 1"), Err(Error::Parse));
}

#[test]
fn malformed_lines_are_parse_errors() {
    let bad = [
        "Card 1: 1 2 3",
        "Card 1: 1 2 3 |",
        "Card 1: | 1 2 3",
        "Card 1: 1 | 2 | 3",
        "Card 1 1 | 1",
        "Card 1 : 1 | 1",
        "Card: 1 | 1",
        "Card x: 1 | 1",
        "Card 1:1 | 1",
        "Card1: 1 | 1",
        "card 1: 1 | 1",
        "Cards 1: 1 | 1",
        "1: 1 | 1",
        "Card 1: 1 x | 1",
        "Card 1: 1 | 1x",
        "Card 1: 1 | -1",
        "Card 1: 1| 1",
        "Card 1: 1 |1",
        "Card 1: 1|1",
        "Card 1: 1 || 1",
        " Card 1: 1 | 1",
        "Card 1: 1 | 1 ",
        "Card 1: 1 | 1\t",
        "Card 1: 1 | 1 trailing",
        "Card 1: 1 | ١",
        "Card 1: é | 1",
        "Card 1: 1 | 1\u{a0}",
    ];
    for line in bad {
        assert!(card(line).is_none(), "{:?}", line);
        assert_eq!(checked_run(line), Err(Error::Parse), "{:?}", line);
        let text = format!("Card 1: 1 | 1\n{}\nCard 3: 3 | 3", line);
        assert_eq!(checked_run(&text), Err(Error::Parse), "{:?}", line);
        assert!(matches!(parser(&text), Err(Error::Parse)), "{:?}", line);
    }
}

#[test]
fn parser_keeps_the_order_of_the_lines() {
    let cards = parser("Card 1: 1 | 2\nCard 2: 3 4 | 5\r\nCard 3: 6 | 7 8\n").unwrap();
    assert_eq!(cards.len(), 3);
    assert_eq!(cards[0].owned_numbers, vec!["1"]);
    assert_eq!(cards[0].winning_numbers, vec!["2"]);
    assert_eq!(cards[1].owned_numbers, vec!["3", "4"]);
    assert_eq!(cards[1].winning_numbers, vec!["5"]);
    assert_eq!(cards[2].owned_numbers, vec!["6"]);
    assert_eq!(cards[2].winning_numbers, vec!["7", "8"]);
}

#[test]
fn side_takes_numbers_only() {
    assert_eq!(side(&["1", "22", "333"]), Some(vec!["1", "22", "333"]));
    assert_eq!(side(&["7"]), Some(vec!["7"]));
    assert_eq!(side(&[]), None);
    assert_eq!(side(&["1", "|", "2"]), None);
    assert_eq!(side(&["1", "2a"]), None);
    assert_eq!(side(&[""]), None);
}

#[test]
fn find_bar_gives_the_first_bar() {
    assert_eq!(find_bar(&["Card", "1:", "2", "|", "3"]), 3);
    assert_eq!(find_bar(&["|", "|"]), 0);
    assert_eq!(find_bar(&["a", "||", "b"]), 3);
    assert_eq!(find_bar(&[]), 0);
}

#[test]
fn tokens_are_told_apart() {
    assert!(is_number_token("0"));
    assert!(is_number_token("0123456789"));
    assert!(!is_number_token(""));
    assert!(!is_number_token("12a"));
    assert!(!is_number_token("a12"));
    assert!(!is_number_token("1 2"));
    assert!(!is_number_token("١٢"));
    assert!(is_label_token("1:"));
    assert!(is_label_token("210:"));
    assert!(!is_label_token(":"));
    assert!(!is_label_token(""));
    assert!(!is_label_token("1"));
    assert!(!is_label_token("1::"));
    assert!(!is_label_token("a:"));
    assert!(!is_label_token("1a:"));
    assert!(!is_label_token(":1"));
}

#[test]
fn same_text_compares_every_character() {
    assert!(same_text("", ""));
    assert!(same_text("83", "83"));
    assert!(same_text("é", "é"));
    assert!(!same_text("83", "38"));
    assert!(!same_text("8", "83"));
    assert!(!same_text("6", "06"));
    assert!(!same_text("e", "é"));
}

#[test]
fn holds_looks_through_the_whole_row() {
    assert!(holds(&["83", "86", "6"], "6"));
    assert!(holds(&["83", "86", "6"], "83"));
    assert!(!holds(&["83", "86", "6"], "8"));
    assert!(!holds(&[], "8"));
}
