use live_preview::command::CommandBase;
use live_preview::runner::{args_eq, Runner};

const RESET: &str = "\x1B[2J\x1B[1;1H";

fn strs(words: &[&str]) -> Vec<String> {
    words.iter().map(|w| w.to_string()).collect()
}

fn echo_runner(fixed: &[&str]) -> Runner {
    Runner::new(CommandBase {
        program: "echo".to_string(),
        args: strs(fixed),
    })
}

#[test]
fn dedup_adjacent_duplicates() {
    // Feeding ["a"], ["a"], ["b"] spawns exactly two invocations,
    // for ["a"] then ["b"].
    let mut r = echo_runner(&[]);
    let first = r.step(strs(&["a"]));
    assert_eq!(first, Some(strs(&["echo", "a"])));
    let second = r.step(strs(&["a"]));
    assert_eq!(second, None);
    let third = r.step(strs(&["b"]));
    assert_eq!(third, Some(strs(&["echo", "b"])));
}

#[test]
fn first_vector_compared_against_empty() {
    // The runner starts from the empty vector, so an initial empty
    // vector is discarded and a non-empty one is executed.
    let mut r = echo_runner(&[]);
    assert_eq!(r.step(Vec::new()), None);
    assert!(r.step(strs(&["x"])).is_some());
}

#[test]
fn executions_keep_enqueue_order() {
    // Distinct vectors are executed in exactly the order they arrive.
    let mut r = echo_runner(&[]);
    let inputs = [
        strs(&["one"]),
        strs(&["two"]),
        strs(&["two", "more"]),
        strs(&["three"]),
    ];
    let mut executed = Vec::new();
    for v in inputs.iter() {
        if let Some(cmd) = r.step(v.clone()) {
            executed.push(cmd);
        }
    }
    assert_eq!(
        executed,
        vec![
            strs(&["echo", "one"]),
            strs(&["echo", "two"]),
            strs(&["echo", "two", "more"]),
            strs(&["echo", "three"]),
        ]
    );
}

#[test]
fn idempotent_re_render() {
    // Typing `a`, backspacing to empty, typing `a` again: the empty
    // vector in between differs from both neighbours, so the second
    // `a` is re-executed rather than merged with the first.
    let mut r = echo_runner(&[]);
    let a_first = r.step(strs(&["a"]));
    let empty = r.step(Vec::new());
    let a_again = r.step(strs(&["a"]));
    assert_eq!(a_first, Some(strs(&["echo", "a"])));
    assert_eq!(empty, Some(strs(&["echo"])));
    assert_eq!(a_again, Some(strs(&["echo", "a"])));
}

#[test]
fn fixed_arguments_always_prepended() {
    let mut r = echo_runner(&["hello"]);
    let cmd = r.step(strs(&["world"]));
    assert_eq!(cmd, Some(strs(&["echo", "hello", "world"])));
}

#[test]
fn args_eq_is_structural() {
    assert!(args_eq(&strs(&["a", "b"]), &strs(&["a", "b"])));
    assert!(!args_eq(&strs(&["a", "b"]), &strs(&["a"])));
    assert!(!args_eq(&strs(&["a", "b"]), &strs(&["a", "c"])));
    assert!(args_eq(&Vec::new(), &Vec::new()));
    assert!(!args_eq(&strs(&[""]), &Vec::new()));
}

#[test]
fn output_ordering_scenario() {
    // Base command `echo` with fixed argument `hello` and live input
    // tokenizing to ["world"]: the invocation is `echo hello world`,
    // whose captured output renders as the single line `hello world`
    // after the reset sequence, with no standard-error lines before it.
    let mut r = echo_runner(&["hello"]);
    let cmd = r.step(strs(&["world"])).expect("distinct vector must execute");
    assert_eq!(cmd, strs(&["echo", "hello", "world"]));
    let block = live_preview::render::render_block(b"", b"hello world\n");
    assert_eq!(block, vec![format!("{}hello world", RESET)]);
}

#[test]
fn encoding_fault_does_not_stall_the_loop() {
    // A child that wrote invalid text bytes still renders (as a
    // placeholder), and the next distinct vector is processed as usual.
    let mut r = echo_runner(&[]);
    assert!(r.step(strs(&["bad"])).is_some());
    let block = live_preview::render::render_block(b"", &[0xff, 0xfe, b'\n']);
    assert_eq!(block, vec![format!("{}(invalid utf-8 line)", RESET)]);
    let next = r.step(strs(&["good"]));
    assert_eq!(next, Some(strs(&["echo", "good"])));
}
