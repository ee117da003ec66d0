use karamd::date::Date;
use karamd::taskmd::model::Task;
use karamd::terminal::{parse_command, seed_prompt, Scrollback};

fn task(yaml: &str, body: &str) -> Task {
    Task::parse_required(&format!("---\n{yaml}\n---\n\n{body}\n")).unwrap()
}

#[test]
fn seed_prompt_includes_id_title_and_body() {
    let t = task("id: \"009\"\ntitle: Build the thing", "# Build the thing\n\nDo X then Y.");
    let p = seed_prompt(&t);
    assert!(p.starts_with("Work on task 009: Build the thing"));
    assert!(p.contains("Do X then Y."));
}

#[test]
fn seed_prompt_without_body_is_just_the_header() {
    let t = task("id: \"001\"\ntitle: Quick", "");
    let p = seed_prompt(&t);
    assert_eq!(p, "Work on task 001: Quick");
    assert!(!p.contains("\n"));
}

#[test]
fn seed_prompt_for_a_new_task() {
    let t = Task::new("3", "Third", Date::from_ymd(2026, 1, 1).unwrap());
    assert_eq!(seed_prompt(&t), "Work on task 3: Third\n\n# Third");
}

#[test]
fn parse_command_splits_and_quotes() {
    assert_eq!(parse_command("tool"), vec!["tool"]);
    assert_eq!(parse_command("tool --print"), vec!["tool", "--print"]);
    assert_eq!(parse_command("  tool   --flag  value "), vec!["tool", "--flag", "value"]);
    assert_eq!(parse_command("\"my tool\" 'one arg' plain"), vec!["my tool", "one arg", "plain"]);
    assert_eq!(parse_command("cmd \"\""), vec!["cmd", ""]);
    assert!(parse_command("").is_empty());
    assert!(parse_command("   ").is_empty());
}

#[test]
fn parse_command_keeps_backslashes_and_inner_quotes() {
    assert_eq!(parse_command("a\\b \"it's\""), vec!["a\\b", "it's"]);
    assert_eq!(parse_command("x'y z'w"), vec!["xy zw"]);
}

#[test]
fn scrollback_retains_in_order_until_full() {
    let mut sb = Scrollback::new(8);
    assert!(sb.is_empty());
    sb.push(b"abc");
    sb.push(b"de");
    assert_eq!(sb.len(), 5);
    assert_eq!(sb.snapshot(), b"abcde");
    sb.push(b"fghij");
    assert_eq!(sb.len(), 8);
    assert_eq!(sb.snapshot(), b"cdefghij");
}

#[test]
fn scrollback_keeps_tail_of_oversized_write() {
    let mut sb = Scrollback::new(4);
    sb.push(b"0123456789");
    assert_eq!(sb.snapshot(), b"6789");
}

#[test]
fn scrollback_zero_cap_retains_nothing() {
    let mut sb = Scrollback::new(0);
    sb.push(b"anything");
    assert!(sb.is_empty());
    assert_eq!(sb.len(), 0);
    assert_eq!(sb.snapshot(), b"");
}

#[test]
fn scrollback_in_pieces_equals_all_at_once() {
    let mut a = Scrollback::new(5);
    a.push(b"ab");
    a.push(b"cde");
    a.push(b"fg");
    let mut b = Scrollback::new(5);
    b.push(b"abcdefg");
    assert_eq!(a.snapshot(), b.snapshot());
    assert_eq!(a.snapshot(), b"cdefg");
}

#[test]
fn launch_argv_drops_prompt_placeholders() {
    let cmd: Vec<String> = ["agent", "-p", "{prompt}", "--file", "{prompt_file}", "x{prompt}"].iter().map(|s| s.to_string()).collect();
    assert_eq!(karamd::terminal::launch_argv(&cmd), vec!["agent", "-p", "--file", "x{prompt}"]);
}

#[test]
fn quote_free_command_splits_like_split_whitespace() {
    for cmd in ["", "   ", "agent", "  agent  --flag\tx \n y ", "a\u{3000}b"] {
        let want: Vec<String> = cmd.split_whitespace().map(String::from).collect();
        assert_eq!(parse_command(cmd), want);
    }
}
