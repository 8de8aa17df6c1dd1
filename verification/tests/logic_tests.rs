use easyvote::ballots::{
    ballots_from_choices, build_ballot_choices, choice_names, option_name, parse_choice_label,
    sort_choices_by_rank, BallotChoice, PollOption, VoteError,
};
use easyvote::commands::{
    check_poll_options, get_handler, poll_name_valid, poll_subcommand, ranks_valid,
    should_register, CommandKind, PollOptionsError, PollSubcommand,
};
use easyvote::numbers::num_word;

fn s(x: &str) -> String {
    x.to_string()
}

fn opt(id: i32, name: &str) -> PollOption {
    PollOption { id_poll: 7, id, option: s(name) }
}

fn choice(id_option: i32, rank: u8) -> BallotChoice {
    BallotChoice { id_ballot: 1, id_option, rank }
}

#[test]
fn num_word_ordinals() {
    assert_eq!(num_word(1), "1st");
    assert_eq!(num_word(2), "2nd");
    assert_eq!(num_word(3), "3rd");
    assert_eq!(num_word(4), "4th");
    assert_eq!(num_word(11), "11th");
    // Only 1, 2 and 3 are special-cased, exactly as displayed.
    assert_eq!(num_word(21), "21th");
    assert_eq!(num_word(100), "100th");
    assert_eq!(num_word(255), "255th");
    assert_eq!(num_word(0), "0th");
}

#[test]
fn get_handler_knows_only_poll() {
    assert_eq!(get_handler("poll"), Some(CommandKind::Poll));
    assert_eq!(get_handler("vote"), None);
    assert_eq!(get_handler(""), None);
    assert_eq!(get_handler("polls"), None);
}

#[test]
fn poll_subcommands_dispatch() {
    assert_eq!(poll_subcommand("create"), Some(PollSubcommand::Create));
    assert_eq!(poll_subcommand("close"), Some(PollSubcommand::Close));
    assert_eq!(poll_subcommand("tally"), Some(PollSubcommand::Tally));
    assert_eq!(poll_subcommand("open"), None);
}

#[test]
fn poll_names_are_lowercase_digits_dashes() {
    assert!(poll_name_valid("admin-2022"));
    assert!(poll_name_valid("a"));
    assert!(!poll_name_valid(""));
    assert!(!poll_name_valid("Admin"));
    assert!(!poll_name_valid("a b"));
    assert!(!poll_name_valid("h\u{e9}llo"));
}

#[test]
fn ranks_bounds() {
    assert!(!ranks_valid(1));
    assert!(ranks_valid(2));
    assert!(ranks_valid(20));
    assert!(!ranks_valid(21));
    assert!(!ranks_valid(-3));
}

#[test]
fn poll_options_checks() {
    assert_eq!(check_poll_options(&vec![s("x"), s("y")]), Ok(()));
    assert_eq!(check_poll_options(&vec![s("x")]), Err(PollOptionsError::TooFew));
    assert_eq!(
        check_poll_options(&vec![s("x"), s(""), s("y")]),
        Err(PollOptionsError::Empty(1))
    );
    assert_eq!(check_poll_options(&vec![]), Err(PollOptionsError::TooFew));
}

#[test]
fn registration_policy() {
    assert!(should_register(&None, 9, false, false));
    assert!(should_register(&None, 9, true, true));
    assert!(!should_register(&None, 9, true, false));
    assert!(should_register(&Some(vec![1, 9]), 9, false, false));
    assert!(!should_register(&Some(vec![1, 2]), 9, false, false));
}

#[test]
fn choice_labels_parse() {
    assert_eq!(parse_choice_label("choice-1"), Some(1));
    assert_eq!(parse_choice_label("choice-20"), Some(20));
    assert_eq!(parse_choice_label("-7"), Some(7));
    assert_eq!(parse_choice_label("choice"), None);
    assert_eq!(parse_choice_label("choice-"), None);
    assert_eq!(parse_choice_label("choice-x"), None);
    assert_eq!(parse_choice_label("choice-999"), None);
    assert_eq!(parse_choice_label("a-b-3"), None);
    assert_eq!(parse_choice_label("choice-255"), Some(255));
    assert_eq!(parse_choice_label("choice-256"), None);
}

#[test]
fn ballot_choices_assemble() {
    let options = vec![opt(10, "Red"), opt(20, "Blue")];
    let picks = vec![(1u8, s("Red")), (2u8, s("Blue"))];
    assert_eq!(build_ballot_choices(&options, &picks), Ok(vec![(10, 1), (20, 2)]));
}

#[test]
fn ballot_choices_skip_unknown_options() {
    let options = vec![opt(10, "Red")];
    let picks = vec![(1u8, s("Gray")), (2u8, s("Red"))];
    assert_eq!(build_ballot_choices(&options, &picks), Ok(vec![(10, 2)]));
}

#[test]
fn ballot_choices_refuse_duplicate_option() {
    let options = vec![opt(10, "Red"), opt(20, "Blue")];
    let picks = vec![(1u8, s("Red")), (2u8, s("Red"))];
    assert_eq!(
        build_ballot_choices(&options, &picks),
        Err(VoteError::DuplicateChoice)
    );
}

#[test]
fn ballot_choices_refuse_duplicate_rank() {
    let options = vec![opt(10, "Red"), opt(20, "Blue")];
    let picks = vec![(1u8, s("Red")), (1u8, s("Blue"))];
    assert_eq!(
        build_ballot_choices(&options, &picks),
        Err(VoteError::DuplicateRank)
    );
}

#[test]
fn choices_sort_by_rank() {
    let sorted = sort_choices_by_rank(vec![choice(30, 3), choice(10, 1), choice(20, 2)]);
    assert_eq!(sorted, vec![choice(10, 1), choice(20, 2), choice(30, 3)]);
}

#[test]
fn option_lookup_takes_first_match() {
    let options = vec![opt(10, "Red"), opt(20, "Blue")];
    assert_eq!(option_name(&options, 20), Some(s("Blue")));
    assert_eq!(option_name(&options, 99), None);
}

#[test]
fn choice_names_drop_unknown_ids() {
    let options = vec![opt(10, "Red"), opt(20, "Blue")];
    let choices = vec![choice(20, 1), choice(99, 2), choice(10, 3)];
    assert_eq!(choice_names(&options, &choices), vec![s("Blue"), s("Red")]);
}

#[test]
fn ballots_convert_rank_ordered() {
    let options = vec![opt(10, "Red"), opt(20, "Blue"), opt(30, "Green")];
    let stored = vec![
        vec![choice(30, 2), choice(10, 1)],
        vec![choice(20, 1)],
        vec![],
    ];
    let converted = ballots_from_choices(&options, stored);
    assert_eq!(
        converted,
        vec![vec![s("Red"), s("Green")], vec![s("Blue")], vec![]]
    );
}
