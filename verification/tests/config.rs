use fieldcut::config::{Action, RunConfig};
use fieldcut::selector::validate_input;

fn config(delimiter: Option<&str>, separated_only: bool, selector: &str) -> RunConfig {
    RunConfig::new(delimiter, separated_only, validate_input(selector).unwrap()).unwrap()
}

#[test]
fn separated_only_drops_lines_without_the_delimiter() {
    let run: RunConfig = config(Some(","), true, "1");
    assert_eq!(run.process_line("no delimiter here\n"), None);
    assert_eq!(run.process_line("\n"), None);
    assert_eq!(run.react("no delimiter here\n"), Action::Skip);
}

#[test]
fn separated_only_keeps_lines_with_the_delimiter() {
    let run: RunConfig = config(Some(","), true, "1");
    assert_eq!(run.process_line("a,b\n"), Some("a,\n".to_string()));
    assert_eq!(run.process_line(","), Some(",\n".to_string()));
    assert_eq!(run.react("a,b\n"), Action::Print("a,\n".to_string()));
}

#[test]
fn without_separated_only_every_line_gives_output() {
    let run: RunConfig = config(Some(","), false, "1");
    assert_eq!(run.process_line("no delimiter here\n"), Some("no delimiter here\n\n".to_string()));
    let second: RunConfig = config(Some(","), false, "2");
    assert_eq!(second.process_line("no delimiter here\n"), Some("\n".to_string()));
    assert_eq!(second.react("no delimiter here\n"), Action::Print("\n".to_string()));
}

#[test]
fn default_delimiter_is_the_tab() {
    let run: RunConfig = config(None, false, "3");
    assert_eq!(run.process_line("a\tb\tc\td\n"), Some("c\t\n".to_string()));
    let strict: RunConfig = config(None, true, "1");
    assert_eq!(strict.process_line("a b c\n"), None);
    assert_eq!(strict.process_line("a\tb\n"), Some("a\t\n".to_string()));
}

#[test]
fn empty_delimiter_is_refused() {
    assert!(RunConfig::new(Some(""), false, vec![1]).is_none());
    assert!(RunConfig::new(Some(","), false, vec![1]).is_some());
    assert!(RunConfig::new(None, true, vec![]).is_some());
}

#[test]
fn longer_delimiter_is_matched_as_a_whole() {
    let run: RunConfig = config(Some("::"), true, "2");
    assert_eq!(run.process_line("a:b:c\n"), None);
    assert_eq!(run.process_line("a::b::c\n"), Some("b::\n".to_string()));
}

#[test]
fn empty_read_ends_the_run() {
    let run: RunConfig = config(Some(","), false, "1");
    assert_eq!(run.react(""), Action::Stop);
    let strict: RunConfig = config(Some(","), true, "1");
    assert_eq!(strict.react(""), Action::Stop);
}

#[test]
fn config_serves_every_line_alike() {
    let run: RunConfig = config(Some(","), true, "2-");
    let lines: [&str; 4] = ["a,b,c\n", "plain\n", "x,y\n", "a,b,c\n"];
    let expected: [Action; 4] = [
        Action::Print("b,c\n\n".to_string()),
        Action::Skip,
        Action::Print("y\n\n".to_string()),
        Action::Print("b,c\n\n".to_string()),
    ];
    let mut i: usize = 0;
    while i < 4 {
        assert_eq!(run.react(lines[i]), expected[i]);
        i += 1;
    }
}

#[test]
fn line_without_any_character_gives_a_bare_newline() {
    let run: RunConfig = config(Some(","), false, "1");
    assert_eq!(run.process_line(""), Some("\n".to_string()));
    let strict: RunConfig = config(Some(","), true, "1");
    assert_eq!(strict.process_line(""), None);
}
