use cmd_transformer::history;
use cmd_transformer::paths;
use cmd_transformer::record;
use cmd_transformer::vocab::Vocab;

fn argv(args: &[&str]) -> Vec<String> {
    args.iter().map(|a| a.to_string()).collect()
}

fn entry(cmd: &str, cwd: &str, session: &str) -> Option<history::Entry> {
    Some(history::Entry {
        cmd: cmd.to_string(),
        cwd: cwd.to_string(),
        session: session.to_string(),
    })
}

#[test]
fn a_full_line_is_read_back() {
    let args = record::parse_args(&argv(&[
        "cmd-record", "--cmd", "cargo build", "--cwd", "/home/u", "--exit", "101", "--duration", "2500",
        "--session", "42-1700000000",
    ]));
    assert_eq!(args.cmd, "cargo build");
    assert_eq!(args.cwd, "/home/u");
    assert_eq!(args.exit_code, 101);
    assert_eq!(args.duration, 2500);
    assert_eq!(args.session, "42-1700000000");
}

#[test]
fn missing_and_unreadable_values_have_defaults() {
    let args = record::parse_args(&argv(&["cmd-record"]));
    assert_eq!(args.cmd, "");
    assert_eq!(args.cwd, "");
    assert_eq!(args.exit_code, 0);
    assert_eq!(args.duration, 0);
    assert_eq!(args.session, "");
    let args = record::parse_args(&argv(&["cmd-record", "--exit", "many", "--duration", "1.5"]));
    assert_eq!(args.exit_code, 0);
    assert_eq!(args.duration, 0);
    let args = record::parse_args(&argv(&["cmd-record", "--exit", "3", "--exit", "x", "--cmd"]));
    assert_eq!(args.exit_code, 0);
    assert_eq!(args.cmd, "");
    let args = record::parse_args(&Vec::new());
    assert_eq!(args.cmd, "");
}

#[test]
fn values_may_look_like_options() {
    let args = record::parse_args(&argv(&[
        "cmd-record", "--verbose", "--cmd", "--cwd", "--cwd", "--cmd", "--cmd", "last", "stray",
        "--exit", "-1", "--duration", "-9223372036854775808",
    ]));
    assert_eq!(args.cmd, "last");
    assert_eq!(args.cwd, "--cmd");
    assert_eq!(args.exit_code, -1);
    assert_eq!(args.duration, i64::MIN);
    // The program's name is no argument.
    let args = record::parse_args(&argv(&["--cmd", "ls"]));
    assert_eq!(args.cmd, "");
}

#[test]
fn rows_keep_what_was_reported() {
    let args = record::parse_args(&argv(&["r", "--cmd", "ls", "--cwd", "/", "--session", "s", "--exit", "2"]));
    assert!(record::should_record(&args));
    let row = record::row(args, 1_700_000_000);
    assert_eq!(row.cmd, "ls");
    assert_eq!(row.cwd, "/");
    assert_eq!(row.exit_code, 2);
    assert_eq!(row.duration_ms, 0);
    assert_eq!(row.session, "s");
    assert_eq!(row.recorded_at, 1_700_000_000);
    let none = record::parse_args(&argv(&["r", "--cwd", "/"]));
    assert!(!record::should_record(&none));
    assert_eq!(record::row(none, u64::MAX).recorded_at, -1);
}

#[test]
fn files_lie_below_the_home_directory() {
    let home = Some("/home/u".to_string());
    assert_eq!(paths::data_dir(&home), "/home/u/.local/share/cmd-transformer");
    assert_eq!(paths::db_path(&home), "/home/u/.local/share/cmd-transformer/history.db");
    assert_eq!(paths::weights_path(&home), "/home/u/.local/share/cmd-transformer/model.safetensors");
    assert_eq!(paths::vocab_path(&home), "/home/u/.local/share/cmd-transformer/vocab.txt");
    assert_eq!(paths::config_path(&home), "/home/u/.local/share/cmd-transformer/config.txt");
    assert_eq!(paths::data_dir(&None), "/tmp/.local/share/cmd-transformer");
}

#[test]
fn recorder_and_trainer_mean_the_same_database() {
    for home in [None, Some(""), Some("/"), Some("/root"), Some("/root/"), Some("rel"), Some("//")] {
        let home = home.map(|h| h.to_string());
        assert_eq!(record::db_path(&home), paths::db_path(&home));
        let base = std::path::PathBuf::from(home.clone().unwrap_or("/tmp".to_string()));
        let expected = base.join(".local").join("share").join("cmd-transformer").join("history.db");
        assert_eq!(record::db_path(&home), expected.to_str().unwrap());
    }
    assert_eq!(paths::join("/a", "/b"), "/b");
    assert_eq!(paths::join("/a", ""), std::path::Path::new("/a").join("").to_str().unwrap());
}

#[test]
fn training_text_has_a_line_per_command() {
    let rows = vec![
        entry("ls", "/a", "1"),
        entry("cargo build", "/b", "1"),
        entry("git status", "/a", "2"),
    ];
    let (text, count) = history::load_commands(&rows);
    assert_eq!(text, "[/a] ls\n[/b] cargo build\n\n[/a] git status\n");
    assert_eq!(count, 3);
}

#[test]
fn the_vocabulary_of_a_history_has_the_marks_of_a_line() {
    let (text, _) = history::load_commands(&vec![entry("x", "", "")]);
    assert_eq!(text, "[] x\n");
    let vocab = Vocab::build(&text);
    assert_eq!(vocab.encode("\n []").len(), 4);
}

#[test]
fn blank_long_and_unreadable_rows_are_passed_over() {
    let rows = vec![
        entry("", "/a", "1"),
        entry(" \t\n\u{3000}", "/a", "1"),
        None,
        entry(&"x".repeat(257), "/a", "2"),
        entry(&"é".repeat(129), "/a", "2"),
        entry(&"x".repeat(256), "/a", "3"),
        entry(&"é".repeat(128), "/a", "3"),
        entry("  kept  ", "/b", "3"),
    ];
    let (text, count) = history::load_commands(&rows);
    assert_eq!(count, 3);
    assert_eq!(
        text,
        format!("[/a] {}\n[/a] {}\n[/b]   kept  \n", "x".repeat(256), "é".repeat(128))
    );
    let (text, count) = history::load_commands(&vec![None, entry(" ", "", "")]);
    assert_eq!(text, "");
    assert_eq!(count, 0);
}

#[test]
fn a_session_without_a_name_is_a_session() {
    let rows = vec![entry("a", "", ""), entry("b", "", "1"), entry("c", "", ""), entry("d", "", "1")];
    let (text, _) = history::load_commands(&rows);
    assert_eq!(text, "[] a\n\n[] b\n\n[] c\n\n[] d\n");
    let rows = vec![entry("ls", "/a", ""), entry("pwd", "/b", "s1")];
    let (text, count) = history::load_commands(&rows);
    assert_eq!(text, "[/a] ls\n\n[/b] pwd\n");
    assert_eq!(count, 2);
    let rows = vec![entry("ls", "/a", ""), entry("pwd", "/b", "")];
    assert_eq!(history::load_commands(&rows).0, "[/a] ls\n[/b] pwd\n");
}

#[test]
fn what_is_recorded_is_what_is_trained_on() {
    let conn = rusqlite::Connection::open_in_memory().unwrap();
    conn.execute_batch(record::SCHEMA).unwrap();
    conn.execute_batch(record::SCHEMA).unwrap();
    for (cmd, session, now) in [("two", "b", 2u64), ("one", "a", 3), ("zero", "a", 1)] {
        let args = record::parse_args(&argv(&[
            "cmd-record", "--cmd", cmd, "--cwd", "/w", "--session", session, "--exit", "1", "--duration", "5",
        ]));
        let row = record::row(args, now);
        conn.execute(
            record::INSERT_ROW,
            (&row.cmd, &row.cwd, row.exit_code, row.duration_ms, &row.session, row.recorded_at),
        )
        .unwrap();
    }
    let mut stmt = conn.prepare(history::SELECT_ENTRIES).unwrap();
    let rows: Vec<Option<history::Entry>> = stmt
        .query_map([], |r| {
            Ok(history::Entry { cmd: r.get(0)?, cwd: r.get(1)?, session: r.get(2)? })
        })
        .unwrap()
        .map(|r| r.ok())
        .collect();
    let (text, count) = history::load_commands(&rows);
    assert_eq!(text, "[/w] zero\n[/w] one\n\n[/w] two\n");
    assert_eq!(count, 3);
    let kept: (i64, i64) = conn
        .query_row("SELECT exit_code, duration_ms FROM commands WHERE cmd = 'two'", [], |r| {
            Ok((r.get(0)?, r.get(1)?))
        })
        .unwrap();
    assert_eq!(kept, (1, 5));
}
