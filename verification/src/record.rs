//! What the recorder keeps of a command that was run.
use vstd::prelude::*;

use crate::number;
use crate::paths;
use crate::text;

verus! {

/// A command as the shell hook reports it on the command line.
pub struct Args {
    /// The command.
    pub cmd: String,
    /// The directory it ran in.
    pub cwd: String,
    /// Its exit code.
    pub exit_code: i32,
    /// How long it ran, in milliseconds.
    pub duration: i64,
    /// The session it ran in.
    pub session: String,
}

/// The options that the recorder knows. Each is followed by its value.
pub open spec fn is_option(arg: Seq<char>) -> bool {
    ||| arg == "--cmd"@
    ||| arg == "--cwd"@
    ||| arg == "--exit"@
    ||| arg == "--duration"@
    ||| arg == "--session"@
}

/// The argument at index `i`; empty where there is none.
pub open spec fn arg_at(argv: Seq<Seq<char>>, i: int) -> Seq<char> {
    if 0 <= i < argv.len() {
        argv[i]
    } else {
        seq![]
    }
}

/// The value of the option `name` when the arguments from index `i` on are still to be read and
/// those before gave it the value `value`.
pub open spec fn option_value_from(
    argv: Seq<Seq<char>>,
    i: int,
    name: Seq<char>,
    value: Seq<char>,
) -> Seq<char>
    decreases argv.len() + 1 - i,
{
    if i >= argv.len() {
        value
    } else if is_option(argv[i]) {
        let now = if argv[i] == name {
            arg_at(argv, i + 1)
        } else {
            value
        };
        option_value_from(argv, i + 2, name, now)
    } else {
        option_value_from(argv, i + 1, name, value)
    }
}

/// The value that the arguments after the program's name give to the option `name`: the argument
/// behind its last occurrence, and empty where it does not occur. What stands behind an option is
/// its value, whatever it looks like.
pub open spec fn option_value(argv: Seq<Seq<char>>, name: Seq<char>) -> Seq<char> {
    option_value_from(argv, 1, name, seq![])
}

/// A number that was read, and 0 where none could be.
pub open spec fn or_zero(v: Option<int>) -> int {
    match v {
        Some(n) => n,
        None => 0,
    }
}

/// The names of the options differ.
proof fn lemma_option_names_differ()
    ensures
        "--cmd"@ != "--cwd"@,
        "--cmd"@ != "--exit"@,
        "--cmd"@ != "--duration"@,
        "--cmd"@ != "--session"@,
        "--cwd"@ != "--exit"@,
        "--cwd"@ != "--duration"@,
        "--cwd"@ != "--session"@,
        "--exit"@ != "--duration"@,
        "--exit"@ != "--session"@,
        "--duration"@ != "--session"@,
{
    reveal_strlit("--cmd");
    reveal_strlit("--cwd");
    reveal_strlit("--exit");
    reveal_strlit("--duration");
    reveal_strlit("--session");
    assert("--cmd"@[3] != "--cwd"@[3]);
    assert("--cmd"@.len() == 5 && "--cwd"@.len() == 5 && "--exit"@.len() == 6);
    assert("--duration"@.len() == 10 && "--session"@.len() == 9);
}

/// Reading one argument, and its value where it is an option.
proof fn lemma_option_value_step(
    argv: Seq<Seq<char>>,
    i: int,
    next: int,
    name: Seq<char>,
    value: Seq<char>,
)
    requires
        0 <= i < argv.len(),
        next == if is_option(argv[i]) && i + 1 < argv.len() {
            i + 2
        } else {
            i + 1
        },
    ensures
        option_value_from(argv, i, name, value) == option_value_from(
            argv,
            next,
            name,
            if is_option(argv[i]) && argv[i] == name {
                arg_at(argv, i + 1)
            } else {
                value
            },
        ),
{
    reveal_with_fuel(option_value_from, 2);
}

/// Reads the recorder's command line. Options that it does not know are passed over, and a number
/// that cannot be read counts as 0.
pub fn parse_args(argv: &Vec<String>) -> (args: Args)
    ensures
        args.cmd@ == option_value(text::texts(argv@), "--cmd"@),
        args.cwd@ == option_value(text::texts(argv@), "--cwd"@),
        args.session@ == option_value(text::texts(argv@), "--session"@),
        args.exit_code == or_zero(
            number::i32_value(option_value(text::texts(argv@), "--exit"@)),
        ),
        args.duration == or_zero(
            number::i64_value(option_value(text::texts(argv@), "--duration"@)),
        ),
        match number::i32_value(option_value(text::texts(argv@), "--exit"@)) {
            Some(n) => args.exit_code as int == n,
            None => args.exit_code == 0,
        },
        match number::i64_value(option_value(text::texts(argv@), "--duration"@)) {
            Some(n) => args.duration as int == n,
            None => args.duration == 0,
        },
{
    let ghost all = text::texts(argv@);
    let mut cmd: String = String::new();
    let mut cwd: String = String::new();
    let mut exit: String = String::new();
    let mut duration: String = String::new();
    let mut session: String = String::new();
    let mut i: usize = 1;
    proof {
        lemma_option_names_differ();
    }
    while i < argv.len()
        invariant
            1 <= i,
            all == text::texts(argv@),
            option_value_from(all, i as int, "--cmd"@, cmd@) == option_value(all, "--cmd"@),
            option_value_from(all, i as int, "--cwd"@, cwd@) == option_value(all, "--cwd"@),
            option_value_from(all, i as int, "--exit"@, exit@) == option_value(all, "--exit"@),
            option_value_from(all, i as int, "--duration"@, duration@) == option_value(
                all,
                "--duration"@,
            ),
            option_value_from(all, i as int, "--session"@, session@) == option_value(
                all,
                "--session"@,
            ),
        decreases argv@.len() - i,
    {
        let ghost first = i as int;
        let ghost before = (cmd@, cwd@, exit@, duration@, session@);
        proof {
            lemma_option_names_differ();
        }
        let arg: &str = argv[i].as_str();
        assert(arg@ == all[i as int]);
        let is_cmd: bool = text::same(arg, "--cmd");
        let is_cwd: bool = text::same(arg, "--cwd");
        let is_exit: bool = text::same(arg, "--exit");
        let is_duration: bool = text::same(arg, "--duration");
        let is_session: bool = text::same(arg, "--session");
        i = i + 1;
        if is_cmd || is_cwd || is_exit || is_duration || is_session {
            let mut value: String = String::new();
            if i < argv.len() {
                value = argv[i].clone();
                assert(value@ == all[i as int]);
                i = i + 1;
            }
            if is_cmd {
                cmd = value;
            } else if is_cwd {
                cwd = value;
            } else if is_exit {
                exit = value;
            } else if is_duration {
                duration = value;
            } else {
                session = value;
            }
        }
        proof {
            lemma_option_value_step(all, first, i as int, "--cmd"@, before.0);
            lemma_option_value_step(all, first, i as int, "--cwd"@, before.1);
            lemma_option_value_step(all, first, i as int, "--exit"@, before.2);
            lemma_option_value_step(all, first, i as int, "--duration"@, before.3);
            lemma_option_value_step(all, first, i as int, "--session"@, before.4);
        }
    }
    let exit_code: i32 = match number::parse_i32(&text::chars_of(exit.as_str())) {
        Some(n) => n,
        None => 0,
    };
    let duration: i64 = match number::parse_i64(&text::chars_of(duration.as_str())) {
        Some(n) => n,
        None => 0,
    };
    Args { cmd, cwd, exit_code, duration, session }
}

/// The statements that make the history database what it has to be, where it is not so yet.
pub const SCHEMA: &'static str =
    "CREATE TABLE IF NOT EXISTS commands (
            id          INTEGER PRIMARY KEY AUTOINCREMENT,
            cmd         TEXT    NOT NULL,
            cwd         TEXT    NOT NULL,
            exit_code   INTEGER NOT NULL,
            duration_ms INTEGER NOT NULL,
            session     TEXT    NOT NULL,
            recorded_at INTEGER NOT NULL
        );
        CREATE INDEX IF NOT EXISTS idx_session     ON commands(session);
        CREATE INDEX IF NOT EXISTS idx_recorded_at ON commands(recorded_at);";

/// The statement that adds a [`Row`], whose fields are its parameters, in their order.
pub const INSERT_ROW: &'static str =
    "INSERT INTO commands (cmd, cwd, exit_code, duration_ms, session, recorded_at)
         VALUES (?1, ?2, ?3, ?4, ?5, ?6)";

/// A row of the history.
pub struct Row {
    /// The command.
    pub cmd: String,
    /// The directory it ran in.
    pub cwd: String,
    /// Its exit code.
    pub exit_code: i32,
    /// How long it ran, in milliseconds.
    pub duration_ms: i64,
    /// The session it ran in.
    pub session: String,
    /// When it was recorded, in seconds since the start of 1970.
    pub recorded_at: i64,
}

/// Whether there is a command to record.
pub fn should_record(args: &Args) -> (r: bool)
    ensures
        r == (args.cmd@.len() > 0),
{
    !args.cmd.as_str().is_empty()
}

/// The row that is recorded of a command, `now` seconds after the start of 1970.
pub fn row(args: Args, now: u64) -> (row: Row)
    ensures
        row.cmd == args.cmd,
        row.cwd == args.cwd,
        row.exit_code == args.exit_code,
        row.duration_ms == args.duration,
        row.session == args.session,
        row.recorded_at == now as i64,
        now <= i64::MAX ==> row.recorded_at as int == now as int,
{
    Row {
        cmd: args.cmd,
        cwd: args.cwd,
        exit_code: args.exit_code,
        duration_ms: args.duration,
        session: args.session,
        recorded_at: #[verifier::truncate] (now as i64),
    }
}

/// The history database that rows are added to, given what the environment says of the home
/// directory.
pub fn db_path(home: &Option<String>) -> (path: String)
    ensures
        path@ == paths::joined(
            paths::joined(
                paths::joined(paths::joined(paths::home_dir(*home), ".local"@), "share"@),
                "cmd-transformer"@,
            ),
            "history.db"@,
        ),
        path@ == paths::joined(
            paths::data_dir_below(paths::home_dir(*home)),
            "history.db"@,
        ),
{
    let home_dir: String = match home {
        Some(h) => h.clone(),
        None => "/tmp".to_owned(),
    };
    proof {
        paths::law_data_dir_by_steps(home_dir@, "history.db"@);
    }
    let local: String = paths::join(home_dir.as_str(), ".local");
    let share: String = paths::join(local.as_str(), "share");
    let dir: String = paths::join(share.as_str(), "cmd-transformer");
    paths::join(dir.as_str(), "history.db")
}

/// A command line that gives each option once.
pub open spec fn full_line(
    program: Seq<char>,
    cmd: Seq<char>,
    cwd: Seq<char>,
    exit: Seq<char>,
    duration: Seq<char>,
    session: Seq<char>,
) -> Seq<Seq<char>> {
    seq![
        program,
        "--cmd"@,
        cmd,
        "--cwd"@,
        cwd,
        "--exit"@,
        exit,
        "--duration"@,
        duration,
        "--session"@,
        session,
    ]
}

/// Of a command line that gives each option once, the recorder reads every value as it was given,
/// whatever the command and the other values look like.
pub proof fn law_full_line_reads_back(
    program: Seq<char>,
    cmd: Seq<char>,
    cwd: Seq<char>,
    exit: Seq<char>,
    duration: Seq<char>,
    session: Seq<char>,
)
    ensures
        ({
            let argv = full_line(program, cmd, cwd, exit, duration, session);
            &&& option_value(argv, "--cmd"@) == cmd
            &&& option_value(argv, "--cwd"@) == cwd
            &&& option_value(argv, "--exit"@) == exit
            &&& option_value(argv, "--duration"@) == duration
            &&& option_value(argv, "--session"@) == session
        }),
{
    lemma_option_names_differ();
    reveal_with_fuel(option_value_from, 6);
}

/// A number that was read counts as itself, and 0 stands for one that could not be.
pub proof fn law_or_zero(n: int)
    ensures
        or_zero(Some(n)) == n,
        or_zero(None) == 0,
{
}

/// Numbers that are given on the command line are recorded as those numbers: of a command line
/// that gives each option once, every exit code and every duration that their types can hold comes
/// back as it was, whatever the other values are.
pub proof fn law_numbers_read_back(
    program: Seq<char>,
    cmd: Seq<char>,
    cwd: Seq<char>,
    exit: int,
    duration: int,
    session: Seq<char>,
)
    requires
        -0x8000_0000 <= exit <= 0x7FFF_FFFF,
        -0x8000_0000_0000_0000 <= duration <= 0x7FFF_FFFF_FFFF_FFFF,
    ensures
        ({
            let argv = seq![
                program,
                "--cmd"@,
                cmd,
                "--cwd"@,
                cwd,
                "--exit"@,
                number::signed_decimal(exit),
                "--duration"@,
                number::signed_decimal(duration),
                "--session"@,
                session,
            ];
            &&& or_zero(number::i32_value(option_value(argv, "--exit"@))) == exit
            &&& or_zero(number::i64_value(option_value(argv, "--duration"@))) == duration
        }),
{
    let e = number::signed_decimal(exit);
    let d = number::signed_decimal(duration);
    law_full_line_reads_back(program, cmd, cwd, e, d, session);
    number::law_signed_decimal_reads_back(exit);
    number::law_signed_decimal_reads_back(duration);
    assert(full_line(program, cmd, cwd, e, d, session) == seq![
        program,
        "--cmd"@,
        cmd,
        "--cwd"@,
        cwd,
        "--exit"@,
        e,
        "--duration"@,
        d,
        "--session"@,
        session,
    ]);
}

/// The options are these five.
pub proof fn law_options(arg: Seq<char>)
    ensures
        is_option(arg) <==> (arg == "--cmd"@ || arg == "--cwd"@ || arg == "--exit"@ || arg
            == "--duration"@ || arg == "--session"@),
{
}

/// What an option's value is depends only on the arguments that are still to be read.
proof fn lemma_value_from_rest(
    a: Seq<Seq<char>>,
    i: int,
    b: Seq<Seq<char>>,
    j: int,
    name: Seq<char>,
    value: Seq<char>,
)
    requires
        0 <= i <= a.len(),
        0 <= j <= b.len(),
        a.skip(i) == b.skip(j),
    ensures
        option_value_from(a, i, name, value) == option_value_from(b, j, name, value),
    decreases a.len() - i,
{
    assert(a.skip(i).len() == a.len() - i);
    assert(b.skip(j).len() == b.len() - j);
    if i < a.len() {
        assert(a[i] == a.skip(i)[0]);
        assert(b[j] == b.skip(j)[0]);
        if i + 1 < a.len() {
            assert(a[i + 1] == a.skip(i)[1]);
            assert(b[j + 1] == b.skip(j)[1]);
        }
        let step: int = if is_option(a[i]) && i + 1 < a.len() {
            2
        } else {
            1
        };
        lemma_option_value_step(a, i, i + step, name, value);
        lemma_option_value_step(b, j, j + step, name, value);
        let now = if is_option(a[i]) && a[i] == name {
            arg_at(a, i + 1)
        } else {
            value
        };
        assert(a.skip(i + step) == a.skip(i).skip(step));
        assert(b.skip(j + step) == b.skip(j).skip(step));
        lemma_value_from_rest(a, i + step, b, j + step, name, now);
    }
}

/// Reading on from a value that was given is like reading a command line that begins with it.
proof fn lemma_value_given(program: Seq<char>, name: Seq<char>, v: Seq<char>, rest: Seq<Seq<char>>)
    requires
        is_option(name),
    ensures
        option_value(seq![program, name, v] + rest, name) == option_value_from(
            seq![program] + rest,
            1,
            name,
            v,
        ),
{
    let a = seq![program, name, v] + rest;
    let b = seq![program] + rest;
    lemma_option_value_step(a, 1, 3, name, seq![]);
    assert(a.skip(3) == b.skip(1));
    lemma_value_from_rest(a, 3, b, 1, name, v);
}

/// What the recorder makes of an argument while the option `name` has no value yet: an argument
/// that is no option is passed over; another option is passed over with the value behind it; and
/// `name` gets the argument behind it, which is empty where there is none.
pub proof fn law_first_value(
    program: Seq<char>,
    name: Seq<char>,
    other: Seq<char>,
    v: Seq<char>,
    rest: Seq<Seq<char>>,
)
    requires
        is_option(name),
        other != name,
    ensures
        option_value(seq![program], name).len() == 0,
        option_value(seq![program, name], name).len() == 0,
        option_value(seq![program, name, v], name) == v,
        !is_option(other) ==> option_value(seq![program, other] + rest, name) == option_value(
            seq![program] + rest,
            name,
        ),
        is_option(other) ==> option_value(seq![program, other], name).len() == 0,
        is_option(other) ==> option_value(seq![program, other, v] + rest, name) == option_value(
            seq![program] + rest,
            name,
        ),
{
    reveal_with_fuel(option_value_from, 3);
    let none = Seq::<char>::empty();
    let b = seq![program] + rest;
    if is_option(other) {
        let a = seq![program, other, v] + rest;
        lemma_option_value_step(a, 1, 3, name, none);
        assert(a.skip(3) == b.skip(1));
        lemma_value_from_rest(a, 3, b, 1, name, none);
    } else {
        let a = seq![program, other] + rest;
        lemma_option_value_step(a, 1, 2, name, none);
        assert(a.skip(2) == b.skip(1));
        lemma_value_from_rest(a, 2, b, 1, name, none);
    }
}

/// What the recorder makes of an argument once the option `name` has the value `v`: the value stays
/// whatever else comes, until `name` comes again, whose value then counts alone.
pub proof fn law_last_value(
    program: Seq<char>,
    name: Seq<char>,
    v: Seq<char>,
    other: Seq<char>,
    w: Seq<char>,
    rest: Seq<Seq<char>>,
)
    requires
        is_option(name),
        other != name,
    ensures
        option_value(seq![program, name, v, name], name).len() == 0,
        option_value(seq![program, name, v, name, w] + rest, name) == option_value(
            seq![program, name, w] + rest,
            name,
        ),
        !is_option(other) ==> option_value(seq![program, name, v, other] + rest, name)
            == option_value(seq![program, name, v] + rest, name),
        is_option(other) ==> option_value(seq![program, name, v, other], name) == v,
        is_option(other) ==> option_value(seq![program, name, v, other, w] + rest, name)
            == option_value(seq![program, name, v] + rest, name),
{
    let b = seq![program] + rest;
    lemma_value_given(program, name, v, rest);
    lemma_value_given(program, name, w, rest);
    assert(option_value(seq![program, name, v, name], name).len() == 0) by {
        reveal_with_fuel(option_value_from, 4);
    }
    let twice = seq![program, name, v, name, w] + rest;
    lemma_option_value_step(twice, 1, 3, name, seq![]);
    lemma_option_value_step(twice, 3, 5, name, v);
    assert(twice.skip(5) == b.skip(1));
    lemma_value_from_rest(twice, 5, b, 1, name, w);
    if is_option(other) {
        assert(option_value(seq![program, name, v, other], name) == v) by {
            reveal_with_fuel(option_value_from, 4);
        }
        let a = seq![program, name, v, other, w] + rest;
        lemma_option_value_step(a, 1, 3, name, seq![]);
        lemma_option_value_step(a, 3, 5, name, v);
        assert(a.skip(5) == b.skip(1));
        lemma_value_from_rest(a, 5, b, 1, name, v);
    } else {
        let a = seq![program, name, v, other] + rest;
        lemma_option_value_step(a, 1, 3, name, seq![]);
        lemma_option_value_step(a, 3, 4, name, v);
        assert(a.skip(4) == b.skip(1));
        lemma_value_from_rest(a, 4, b, 1, name, v);
    }
}

} // verus!
