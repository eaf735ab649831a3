use live_preview::command::{parse_args, CommandBase};

fn strs(words: &[&str]) -> Vec<String> {
    words.iter().map(|w| w.to_string()).collect()
}

fn parsed(argv: &[&str]) -> (CommandBase, String) {
    parse_args(strs(argv)).expect("argv with a program must parse")
}

#[test]
fn missing_program_is_a_startup_error() {
    assert_eq!(parse_args(strs(&["self"])).err(), Some("missing argv[1]".to_string()));
    assert_eq!(parse_args(Vec::new()).err(), Some("missing argv[0]".to_string()));
}

#[test]
fn program_and_fixed_arguments_are_taken_from_argv() {
    let (base, _) = parsed(&["self", "echo", "hello", "there"]);
    assert_eq!(base.program, "echo");
    assert_eq!(base.args, strs(&["hello", "there"]));
}

#[test]
fn prompt_shows_the_base_command() {
    let (_, prompt) = parsed(&["self", "echo", "hello"]);
    assert_eq!(prompt, "> echo hello");
}

#[test]
fn prompt_ends_with_space_for_live_arguments() {
    let (_, prompt) = parsed(&["self", "echo"]);
    assert_eq!(prompt, "> echo ");
}

#[test]
fn prompt_quotes_words_that_need_it() {
    // Words with spaces are shell-quoted in the prompt, so the shown
    // command line is unambiguous.
    let (_, prompt) = parsed(&["self", "my prog", "a b", "c"]);
    assert_eq!(prompt, "> 'my prog' 'a b' c");
}
