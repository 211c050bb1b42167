use cpu_api::action::{parse_action, Action, MalformedAction};

fn fork(p: &str, c: &str) -> Action {
    Action::Fork { parent: p.to_string(), child: c.to_string() }
}

#[test]
fn fork_text_parses() {
    assert_eq!(parse_action("a+b"), Ok(fork("a", "b")));
    assert_eq!(parse_action("ab+Z_9"), Ok(fork("ab", "Z_9")));
}

#[test]
fn exit_text_parses() {
    assert_eq!(parse_action("a-"), Ok(Action::Exit { process: "a".to_string() }));
    assert_eq!(parse_action("bc-"), Ok(Action::Exit { process: "bc".to_string() }));
}

#[test]
fn malformed_texts_fail() {
    for text in ["a+", "a*b", "+b", "", "-", "a+b+c", "a-b", "a--", "a b+c", "a+b-", " a-"] {
        assert_eq!(parse_action(text), Err(MalformedAction), "{}", text);
    }
}

#[test]
fn parsing_twice_agrees() {
    for text in ["a+b", "q-", "x+"] {
        assert_eq!(parse_action(text), parse_action(text));
    }
}

#[test]
fn duplicate_copies() {
    let a = fork("a", "b");
    assert_eq!(a.duplicate(), a);
}
