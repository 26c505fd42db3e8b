//! The history as training text.
//!
//! Each command is a line `[/path/to/cwd] command`. A blank line stands between sessions, so that
//! the model learns no continuation from one session into another.
use vstd::prelude::*;
use vstd::utf8::*;

use crate::text;

verus! {

/// The longest command that is trained on, in bytes.
pub const MAX_CMD_BYTES: usize = 256;

/// The query for the command, the directory and the session of each row, session by session.
pub const SELECT_ENTRIES: &'static str =
    "SELECT cmd, cwd, session FROM commands ORDER BY session, recorded_at";

/// A command of the history.
pub struct Entry {
    /// The command.
    pub cmd: String,
    /// The directory it ran in.
    pub cwd: String,
    /// The session it ran in.
    pub session: String,
}

/// The texts of an [`Entry`].
pub struct EntryText {
    /// The command.
    pub cmd: Seq<char>,
    /// The directory it ran in.
    pub cwd: Seq<char>,
    /// The session it ran in.
    pub session: Seq<char>,
}

impl View for Entry {
    type V = EntryText;

    open spec fn view(&self) -> EntryText {
        EntryText { cmd: self.cmd@, cwd: self.cwd@, session: self.session@ }
    }
}

/// The texts of rows, some of which could not be read.
pub open spec fn row_texts(rows: Seq<Option<Entry>>) -> Seq<Option<EntryText>> {
    rows.map_values(
        |r: Option<Entry>|
            match r {
                Some(e) => Some(e@),
                None => None,
            },
    )
}

/// Whether a command is trained on: it is not blank and not too long.
pub open spec fn usable(e: EntryText) -> bool {
    text::trimmed(e.cmd).len() > 0 && encode_utf8(e.cmd).len() <= MAX_CMD_BYTES
}

/// The commands that are trained on: the usable ones among the rows that could be read.
pub open spec fn kept(rows: Seq<Option<EntryText>>) -> Seq<EntryText>
    decreases rows.len(),
{
    if rows.len() == 0 {
        seq![]
    } else {
        match rows.last() {
            Some(e) => if usable(e) {
                kept(rows.drop_last()).push(e)
            } else {
                kept(rows.drop_last())
            },
            None => kept(rows.drop_last()),
        }
    }
}

/// The line of a command.
pub open spec fn line(e: EntryText) -> Seq<char> {
    "["@ + e.cwd + "] "@ + e.cmd + "\n"@
}

/// What stands between the line of a command and the line of the next.
pub open spec fn separator(before: EntryText, after: EntryText) -> Seq<char> {
    if before.session != after.session {
        "\n"@
    } else {
        seq![]
    }
}

/// The training text of `entries`.
pub open spec fn training_text(entries: Seq<EntryText>) -> Seq<char>
    decreases entries.len(),
{
    if entries.len() == 0 {
        seq![]
    } else if entries.len() == 1 {
        line(entries[0])
    } else {
        training_text(entries.drop_last()) + separator(
            entries[entries.len() - 2],
            entries.last(),
        ) + line(entries.last())
    }
}

/// Whether the command of `e` is trained on.
fn is_usable(e: &Entry) -> (r: bool)
    ensures
        r == usable(e@),
{
    let cmd: &str = e.cmd.as_str();
    text::trim(&text::chars_of(cmd)).len() > 0 && cmd.as_bytes().len() <= MAX_CMD_BYTES
}

/// The training text of the history, whose rows come session by session, and the number of
/// commands in it. A row that could not be read is `None` and is passed over.
pub fn load_commands(rows: &Vec<Option<Entry>>) -> (r: (String, usize))
    ensures
        r.0@ == training_text(kept(row_texts(rows@))),
        r.1 == kept(row_texts(rows@)).len(),
{
    let ghost all = row_texts(rows@);
    let mut text: String = String::new();
    let mut session: String = String::new();
    let mut count: usize = 0;
    assert(all.take(0).len() == 0);
    for i in 0..rows.len()
        invariant
            all == row_texts(rows@),
            count <= i,
            count == kept(all.take(i as int)).len(),
            text@ == training_text(kept(all.take(i as int))),
            count > 0 ==> session@ == kept(all.take(i as int)).last().session,
    {
        let ghost before = kept(all.take(i as int));
        assert(all.take(i + 1).drop_last() == all.take(i as int));
        assert(all.take(i + 1).last() == all[i as int]);
        if let Some(e) = &rows[i] {
            if is_usable(e) {
                let ghost now = before.push(e@);
                assert(kept(all.take(i + 1)) == now);
                assert(now.drop_last() == before);
                let ghost start = text@;
                if count > 0 && !text::same(e.session.as_str(), session.as_str()) {
                    text.push_str("\n");
                }
                session = e.session.clone();
                proof {
                    if before.len() > 0 {
                        assert(now[now.len() - 2] == before.last());
                        assert(text@ == start + separator(before.last(), e@));
                    } else {
                        assert(text@ == start);
                    }
                }
                let ghost joined = text@;
                text.push_str("[");
                text.push_str(e.cwd.as_str());
                text.push_str("] ");
                text.push_str(e.cmd.as_str());
                text.push_str("\n");
                assert(text@ == joined + line(e@));
                assert(text@ == training_text(now));
                count = count + 1;
            }
        }
    }
    assert(all.take(rows@.len() as int) == all);
    (text, count)
}

/// Where the line of the command `entries[i]` begins in the training text.
pub open spec fn line_start(entries: Seq<EntryText>, i: int) -> int {
    if i == 0 {
        0
    } else {
        (training_text(entries.take(i)) + separator(entries[i - 1], entries[i])).len() as int
    }
}

/// A line is not empty and ends in `'\n'`.
proof fn lemma_line_ends(e: EntryText)
    ensures
        line(e).len() > 0,
        line(e).last() == '\n',
{
    reveal_strlit("\n");
}

/// The training text begins with the training text of the first commands.
proof fn lemma_text_of_first_commands(entries: Seq<EntryText>, k: int)
    requires
        0 <= k <= entries.len(),
    ensures
        training_text(entries.take(k)).len() <= training_text(entries).len(),
        training_text(entries).take(training_text(entries.take(k)).len() as int)
            == training_text(entries.take(k)),
    decreases entries.len(),
{
    let whole = training_text(entries);
    let part = training_text(entries.take(k));
    if k == entries.len() {
        assert(entries.take(k) == entries);
        assert(whole.take(whole.len() as int) == whole);
    } else if k == 0 {
        assert(part == Seq::<char>::empty());
        assert(whole.take(0) == part);
    } else {
        let shorter = entries.drop_last();
        lemma_text_of_first_commands(shorter, k);
        assert(shorter.take(k) == entries.take(k));
        assert(entries.len() >= 2);
        let before = training_text(shorter);
        assert(whole.take(before.len() as int) == before);
        assert(whole.take(part.len() as int) == before.take(part.len() as int));
    }
}

/// The line of each command stands in the training text, at `line_start`.
pub proof fn law_each_command_has_its_line(entries: Seq<EntryText>, i: int)
    requires
        0 <= i < entries.len(),
    ensures
        0 <= line_start(entries, i),
        line_start(entries, i) + line(entries[i]).len() <= training_text(entries).len(),
        training_text(entries).subrange(
            line_start(entries, i),
            line_start(entries, i) + line(entries[i]).len(),
        ) == line(entries[i]),
{
    let upto = entries.take(i + 1);
    let text = training_text(upto);
    lemma_text_of_first_commands(entries, i + 1);
    assert(upto.drop_last() == entries.take(i));
    assert(upto.last() == entries[i]);
    let start = line_start(entries, i);
    let end = start + line(entries[i]).len();
    if i == 0 {
        assert(text == line(entries[0]));
    } else {
        assert(upto[upto.len() - 2] == entries[i - 1]);
        assert(text == training_text(entries.take(i)) + separator(entries[i - 1], entries[i])
            + line(entries[i]));
    }
    assert(text.len() == end);
    assert(text.subrange(start, end) == line(entries[i]));
    assert(training_text(entries).subrange(start, end) == training_text(entries).take(
        end,
    ).subrange(start, end));
}

/// The line of a command follows on the line of the one before it. In between stands a blank line
/// where their sessions differ, and nothing where they are the same.
pub proof fn law_blank_line_between_sessions(entries: Seq<EntryText>, i: int)
    requires
        0 < i < entries.len(),
    ensures
        ({
            let text = training_text(entries);
            let end = line_start(entries, i - 1) + line(entries[i - 1]).len();
            let start = line_start(entries, i);
            &&& 0 < end <= start < text.len()
            &&& text[end - 1] == '\n'
            &&& entries[i - 1].session != entries[i].session ==> start == end + 1 && text[end]
                == '\n'
            &&& entries[i - 1].session == entries[i].session ==> start == end
        }),
{
    reveal_strlit("\n");
    let text = training_text(entries);
    law_each_command_has_its_line(entries, i - 1);
    law_each_command_has_its_line(entries, i);
    lemma_line_ends(entries[i - 1]);
    lemma_line_ends(entries[i]);
    lemma_text_of_first_commands(entries, i);
    let first = entries.take(i);
    let upto = training_text(first);
    let end = line_start(entries, i - 1) + line(entries[i - 1]).len();
    assert(first.drop_last() == entries.take(i - 1));
    assert(first.last() == entries[i - 1]);
    if i > 1 {
        assert(first[first.len() - 2] == entries[i - 2]);
    }
    assert(upto.len() == end);
    assert(upto[end - 1] == '\n');
    assert(text.take(end)[end - 1] == text[end - 1]);
    lemma_text_of_first_commands(entries, i + 1);
    let next = entries.take(i + 1);
    assert(next.drop_last() == first);
    assert(next[next.len() - 2] == entries[i - 1]);
    assert(next.last() == entries[i]);
    if entries[i - 1].session != entries[i].session {
        assert(training_text(next)[end] == '\n');
        assert(text.take(training_text(next).len() as int)[end] == text[end]);
    }
}

/// The training text of one or more commands holds the marks of a line: `'['`, `']'`, `' '` and
/// `'\n'`. So its vocabulary has a token for `'\n'`, at which a completion stops.
pub proof fn law_text_has_its_marks(entries: Seq<EntryText>)
    requires
        entries.len() > 0,
    ensures
        training_text(entries).contains('['),
        training_text(entries).contains(']'),
        training_text(entries).contains(' '),
        training_text(entries).contains('\n'),
{
    reveal_strlit("[");
    reveal_strlit("] ");
    reveal_strlit("\n");
    law_each_command_has_its_line(entries, 0);
    let text = training_text(entries);
    let first = line(entries[0]);
    let close = 1 + entries[0].cwd.len() as int;
    assert(text.subrange(0, first.len() as int) == first);
    assert(forall|j: int| 0 <= j < first.len() ==> text[j] == #[trigger] first[j]);
    assert(first[0] == '[');
    assert(first[close] == ']');
    assert(first[close + 1] == ' ');
    assert(first[first.len() - 1] == '\n');
    assert(text[0] == '[');
    assert(text[close] == ']');
    assert(text[close + 1] == ' ');
    assert(text[first.len() - 1] == '\n');
}

/// Every usable command of a row that could be read is kept, and nothing else is.
pub proof fn law_kept_commands(rows: Seq<Option<EntryText>>, e: EntryText)
    ensures
        kept(rows).contains(e) <==> usable(e) && rows.contains(Some(e)),
    decreases rows.len(),
{
    if rows.len() > 0 {
        let before = rows.drop_last();
        law_kept_commands(before, e);
        if rows.contains(Some(e)) && rows.last() != Some(e) {
            let j = choose|j: int| 0 <= j < rows.len() && rows[j] == Some(e);
            assert(before[j] == Some(e));
        }
        if before.contains(Some(e)) {
            let j = choose|j: int| 0 <= j < before.len() && before[j] == Some(e);
            assert(rows[j] == Some(e));
        }
        if rows.last() == Some(e) {
            assert(rows[rows.len() - 1] == Some(e));
        }
        if let Some(x) = rows.last() {
            if usable(x) {
                let now = kept(before).push(x);
                assert(kept(rows) == now);
                if kept(before).contains(e) {
                    let j = choose|j: int| 0 <= j < kept(before).len() && kept(before)[j] == e;
                    assert(now[j] == e);
                }
                if now.contains(e) && x != e {
                    let j = choose|j: int| 0 <= j < now.len() && now[j] == e;
                    assert(kept(before)[j] == e);
                }
                assert(now[now.len() - 1] == x);
            }
        }
    }
}

/// The texts of rows are those rows, one for one and in their order.
pub proof fn law_row_texts(rows: Seq<Option<Entry>>, i: int)
    ensures
        row_texts(rows).len() == rows.len(),
        0 <= i < rows.len() ==> match rows[i] {
            Some(e) => row_texts(rows)[i] == Some(
                EntryText { cmd: e.cmd@, cwd: e.cwd@, session: e.session@ },
            ),
            None => row_texts(rows)[i] == None::<EntryText>,
        },
{
}

/// A command is trained on if it holds a character that is no white space and takes up at most 256
/// bytes, whatever it is and wherever it ran.
pub proof fn law_usable(e: EntryText)
    ensures
        usable(e) <==> encode_utf8(e.cmd).len() <= 256 && exists|j: int|
            0 <= j < e.cmd.len() && !text::white_space(#[trigger] e.cmd[j]),
{
    text::law_trimmed(e.cmd);
}

/// The commands that are trained on are those of the rows that could be read and are usable, in
/// their order and with their repetitions.
pub proof fn law_kept_in_order(rows: Seq<Option<EntryText>>)
    ensures
        kept(rows) == rows.filter(
            |r: Option<EntryText>| r matches Some(e) && usable(e),
        ).map_values(|r: Option<EntryText>| r->0),
        forall|e: EntryText|
            usable(e) ==> #[trigger] kept(rows).to_multiset().count(e) == rows.to_multiset().count(
                Some(e),
            ),
    decreases rows.len(),
{
    broadcast use vstd::seq_lib::group_to_multiset_ensures;

    reveal(Seq::filter);
    let good = |r: Option<EntryText>| r matches Some(e) && usable(e);
    let inner = |r: Option<EntryText>| r->0;
    if rows.len() == 0 {
        assert(kept(rows) == rows.filter(good).map_values(inner));
    } else {
        let before = rows.drop_last();
        law_kept_in_order(before);
        assert(rows == before.push(rows.last()));
        if good(rows.last()) {
            let e = rows.last()->0;
            assert(kept(rows) == kept(before).push(e));
            assert(rows.filter(good) == before.filter(good).push(rows.last()));
            assert(before.filter(good).push(rows.last()).map_values(inner) == before.filter(
                good,
            ).map_values(inner).push(e));
        } else {
            assert(kept(rows) == kept(before));
        }
        assert forall|e: EntryText| usable(e) implies #[trigger] kept(rows).to_multiset().count(e)
            == rows.to_multiset().count(Some(e)) by {
            assert(kept(before).to_multiset().count(e) == before.to_multiset().count(Some(e)));
        }
    }
}

/// A further row that could be read and is usable adds its command at the end; any other row adds
/// nothing.
pub proof fn law_kept_one_more(rows: Seq<Option<EntryText>>, row: Option<EntryText>)
    ensures
        kept(Seq::empty()).len() == 0,
        match row {
            Some(e) => kept(rows.push(row)) == if usable(e) {
                kept(rows).push(e)
            } else {
                kept(rows)
            },
            None => kept(rows.push(row)) == kept(rows),
        },
{
    assert(rows.push(row).drop_last() == rows);
}

/// A further command adds its line `[cwd] command` at the end of the training text, behind a blank
/// line where its session is not that of the command before it. What comes before stays as it is.
pub proof fn law_text_one_more(entries: Seq<EntryText>, e: EntryText)
    ensures
        training_text(Seq::empty()).len() == 0,
        training_text(entries.push(e)) == training_text(entries) + (if entries.len() > 0
            && entries[entries.len() - 1].session != e.session {
            seq!['\n']
        } else {
            Seq::empty()
        }) + (seq!['['] + e.cwd + seq![']', ' '] + e.cmd + seq!['\n']),
{
    reveal_strlit("[");
    reveal_strlit("] ");
    reveal_strlit("\n");
    assert("["@ == seq!['[']);
    assert("] "@ == seq![']', ' ']);
    assert("\n"@ == seq!['\n']);
    let all = entries.push(e);
    assert(all.drop_last() == entries);
    assert(all.last() == e);
    if entries.len() == 0 {
        assert(all[0] == e);
        assert(training_text(all) == training_text(entries) + Seq::<char>::empty() + line(e));
    } else {
        assert(all[all.len() - 2] == entries[entries.len() - 1]);
    }
}

} // verus!
