use logkv::command::{parse_command, split_words, Command};

fn words(xs: &[&str]) -> Vec<String> {
    xs.iter().map(|x| x.to_string()).collect()
}

#[test]
fn split_keeps_spaces_in_the_value() {
    assert_eq!(split_words(&"SET k a b c".to_string()), words(&["SET", "k", "a b c"]));
    assert_eq!(split_words(&"GET k".to_string()), words(&["GET", "k"]));
    assert_eq!(split_words(&"COMPACT".to_string()), words(&["COMPACT"]));
    assert_eq!(split_words(&"SET k ".to_string()), words(&["SET", "k", ""]));
}

#[test]
fn commands_are_read_from_words() {
    assert_eq!(
        parse_command(&words(&["SET", "k", "v"])),
        Command::Put { key: "k".to_string(), value: "v".to_string() }
    );
    assert_eq!(parse_command(&words(&["SET", "k", ""])), Command::EmptyValue);
    assert_eq!(parse_command(&words(&["SET", "k"])), Command::MissingArgument);
    assert_eq!(parse_command(&words(&["GET", "k"])), Command::Get { key: "k".to_string() });
    assert_eq!(parse_command(&words(&["DELETE", "k"])), Command::Delete { key: "k".to_string() });
    assert_eq!(parse_command(&words(&["COMPACT"])), Command::Compact);
    assert_eq!(parse_command(&words(&["get", "k"])), Command::Unknown);
    assert_eq!(parse_command(&words(&[])), Command::Unknown);
}
