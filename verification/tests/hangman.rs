use cs110l::hangman::{
    count_pieces, find_all_index_of_element, parse_guess, pick_random_word, pick_word, Hangman, NUM_INCORRECT_GUESSES,
};

fn chars(s: &str) -> Vec<char> {
    s.chars().collect()
}

#[test]
fn finds_every_position_in_order() {
    assert_eq!(find_all_index_of_element(&chars("banana"), 'a'), vec![1, 3, 5]);
    assert_eq!(find_all_index_of_element(&chars("banana"), 'b'), vec![0]);
    assert_eq!(find_all_index_of_element(&chars("banana"), 'z'), Vec::<usize>::new());
    assert_eq!(find_all_index_of_element(&Vec::new(), 'a'), Vec::<usize>::new());
}

#[test]
fn a_guess_is_one_lower_case_letter() {
    assert_eq!(parse_guess(&chars("a")), Some('a'));
    assert_eq!(parse_guess(&chars("z")), Some('z'));
    assert_eq!(parse_guess(&chars("A")), None);
    assert_eq!(parse_guess(&chars("ab")), None);
    assert_eq!(parse_guess(&chars("")), None);
    assert_eq!(parse_guess(&chars("1")), None);
    assert_eq!(parse_guess(&chars("é")), None);
}

#[test]
fn correct_guesses_reveal_every_occurrence() {
    let mut game = Hangman::new(chars("banana"));
    assert_eq!(game.current_word(), &chars("------"));
    assert_eq!(game.remaining_guesses(), NUM_INCORRECT_GUESSES);
    game.guess('a');
    assert_eq!(game.current_word(), &chars("-a-a-a"));
    assert_eq!(game.remaining_guesses(), 5);
    game.guess('n');
    game.guess('b');
    assert_eq!(game.current_word(), &chars("banana"));
    assert!(game.is_finished());
    assert!(game.has_won());
    assert_eq!(game.guessed_letters(), &chars("anb"));
}

#[test]
fn five_wrong_guesses_lose_the_game() {
    let mut game = Hangman::new(chars("cat"));
    for (i, c) in ['x', 'y', 'x', 'q', 'w'].iter().enumerate() {
        assert!(!game.is_finished());
        game.guess(*c);
        assert_eq!(game.remaining_guesses(), 4 - i as u32);
    }
    assert!(game.is_finished());
    assert!(!game.has_won());
    assert_eq!(game.current_word(), &chars("---"));
}

#[test]
fn empty_word_is_already_solved() {
    let game = Hangman::new(Vec::new());
    assert!(game.is_finished());
    assert!(game.has_won());
}

#[test]
fn word_list_pieces_follow_split_on_newlines() {
    let text = "apple\n  pear \r\n\nplum";
    assert_eq!(count_pieces(text), text.split('\n').count());
    for i in 0..count_pieces(text) {
        let expected = text.split('\n').nth(i).unwrap().trim();
        assert_eq!(pick_word(text, i), expected);
    }
    assert_eq!(pick_word(text, 1), "pear");
    assert_eq!(count_pieces(""), 1);
    assert_eq!(pick_word("", 0), "");
    assert_eq!(pick_word("word\n", 1), "");
}

#[test]
fn a_random_word_is_one_of_the_lines_trimmed() {
    let list = "apple \n  banana\ncherry";
    for _ in 0..50 {
        let w = pick_random_word(list);
        assert!(w == "apple" || w == "banana" || w == "cherry", "{}", w);
    }
    assert_eq!(pick_random_word("  solo  "), "solo");
}
