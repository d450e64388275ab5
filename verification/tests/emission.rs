use logtime::{Shell, ByteSink, Fish};
use logtime::fish::{escape_string, fish_cd_line, fish_cmd_line, fish_env_line};

#[test]
fn escape_leaves_plain_words_alone() {
    assert_eq!(escape_string("plain"), "plain");
    assert_eq!(escape_string("a.b/c-d_e"), "a.b/c-d_e");
}

#[test]
fn escape_empty_is_explicit_quotes() {
    assert_eq!(escape_string(""), "''");
}

#[test]
fn escape_quotes_simple_metacharacters() {
    assert_eq!(escape_string("a b"), "'a b'");
    assert_eq!(escape_string("x$y"), "'x$y'");
    assert_eq!(escape_string("*?[]"), "'*?[]'");
}

#[test]
fn escape_rewrites_complex_characters() {
    assert_eq!(escape_string("a\tb"), "a\\tb");
    assert_eq!(escape_string("a\nb"), "a\\nb");
    assert_eq!(escape_string("it's"), "it\\'s");
    assert_eq!(escape_string("a\\b"), "a\\\\b");
    assert_eq!(escape_string("\r"), "\\r");
    assert_eq!(escape_string("\u{1b}"), "\\e");
    assert_eq!(escape_string("\u{0}"), "\\0");
}

#[test]
fn escape_mixes_metacharacters_into_the_rewritten_form() {
    // a complex character forces the bare form, where metacharacters
    // get their own backslash
    assert_eq!(escape_string("a b\tc"), "a\\ b\\tc");
}

#[test]
fn escape_control_characters() {
    assert_eq!(escape_string("\u{1}"), "\\ca");
    assert_eq!(escape_string("\u{1a}"), "\\cz");
    assert_eq!(escape_string("\u{1c}"), "\\x1c");
    assert_eq!(escape_string("\u{1f}"), "\\x1f");
}

#[test]
fn escape_private_use_bytes() {
    assert_eq!(escape_string("\u{f600}"), "\\X00");
    assert_eq!(escape_string("\u{f642}"), "\\X42");
    assert_eq!(escape_string("\u{f6ff}"), "\\Xff");
}

#[test]
fn cd_line_holds_the_escaped_path_as_one_word() {
    assert_eq!(fish_cd_line("work"), "cd work\n");
    assert_eq!(fish_cd_line("my dir"), "cd 'my dir'\n");
    assert_eq!(fish_cd_line("a\tb"), "cd a\\tb\n");
}

#[test]
fn cmd_line_joins_escaped_tokens() {
    let args = vec![String::from("checkout"), String::from("topic branch")];
    assert_eq!(fish_cmd_line("git", &args), "git checkout 'topic branch'\n");
    assert_eq!(fish_cmd_line("ls", &Vec::new()), "ls\n");
}

#[test]
fn env_line_sets_escaped_key_and_value() {
    assert_eq!(fish_env_line("KEY", "a value"), "set KEY 'a value'\n");
}

#[test]
fn fish_emits_to_its_sink() {
    let mut fish = Fish::new(Vec::<u8>::new());
    fish.cd("work").unwrap();
    fish.checkout("topic").unwrap();
    fish.env("K", "v").unwrap();
    let text = String::from_utf8(fish.output).unwrap();
    assert_eq!(text, "cd work\ngit checkout topic\nset K v\n");
}

#[test]
fn new_branch_expands_through_cmd() {
    let mut fish = Fish::new(Vec::<u8>::new());
    fish.new_branch("topic", None).unwrap();
    fish.new_branch("other", Some("main")).unwrap();
    let text = String::from_utf8(fish.output).unwrap();
    assert_eq!(
        text,
        "git checkout -b topic\ngit checkout -b other --no-track main\n"
    );
}

struct BrokenSink;

impl ByteSink for BrokenSink {
    fn write_line(&mut self, _line: &str) -> Result<(), ()> {
        Err(())
    }
}

struct BrokenShell;

impl Shell for BrokenShell {
    fn cd(&mut self, _path: &str) -> Result<(), ()> {
        Err(())
    }
    fn cmd(&mut self, _exe: &str, _args: &Vec<String>) -> Result<(), ()> {
        Err(())
    }
    fn env(&mut self, _key: &str, _val: &str) -> Result<(), ()> {
        Err(())
    }
}

#[test]
fn broken_target_is_pruned_and_the_rest_go_on() {
    let mut targets: Vec<Box<dyn Shell>> = Vec::new();
    targets.push(Box::new(Fish::new(Vec::<u8>::new())));
    targets.push(Box::new(BrokenShell));
    targets.push(Box::new(Fish::new(Vec::<u8>::new())));
    assert_eq!(targets.cd("work"), Ok(()));
    assert_eq!(targets.len(), 2);
    assert_eq!(targets.cmd("git", &vec![String::from("status")]), Ok(()));
    assert_eq!(targets.len(), 2);
}

#[test]
fn broken_sink_fails_a_single_fish_target() {
    let mut fish = Fish::new(BrokenSink);
    assert_eq!(fish.cd("work"), Err(()));
}
