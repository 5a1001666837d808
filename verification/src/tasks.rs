//! `tasks.md`: reading its task table, patching the status column, and
//! holding its rows against what the queue shows of each task.

use vstd::prelude::*;
use vstd::utf8::encode_utf8;
use crate::queue::{count_marked, QueueItem, QueueStatus};
use crate::text::{has_line, has_line_chars, decimal, decimal_chars, eq_chars, push_chars, push_str, 
    ascii_lowercase, ascii_lowercase_chars, chars_of, contains, contains_chars, copy_range, lines,
    split_chars, split_lines, split_on, starts_with, starts_with_chars, string_of, trim,
    trim_chars, trim_matches, trim_matches_chars, views,
};

verus! {

/// One row of the task table.
#[derive(Debug)]
pub struct TaskRow {
    pub id: String,
    pub title: String,
    pub owner: String,
    pub md_status: String,
}

impl TaskRow {
    /// The row's four cells: id, title, owner, status.
    pub open spec fn cells(self) -> Seq<Seq<char>> {
        seq![self.id@, self.title@, self.owner@, self.md_status@]
    }
}

/// The trimmed cells of a table line: `|` trimmed from both ends, split
/// at each `|`, each piece trimmed.
pub open spec fn cells_of(trimmed: Seq<char>) -> Seq<Seq<char>> {
    split_on(trim_matches(trimmed, '|'), '|').map_values(|c: Seq<char>| trim(c))
}

/// A table header: its lowercase form holds `| id` or starts with `|id`.
pub open spec fn is_header(trimmed: Seq<char>) -> bool {
    let lower = ascii_lowercase(trimmed);
    contains(lower, "| id"@) || starts_with(lower, "|id"@)
}

/// The rows read from the lines `ls`, in the state left by the lines
/// before them: whether a table has begun, and whether the line after its
/// header has been seen.
pub open spec fn parse_lines(ls: Seq<Seq<char>>, in_table: bool, past_sep: bool) -> Seq<Seq<Seq<char>>>
    decreases ls.len(),
{
    if ls.len() == 0 {
        seq![]
    } else {
        let t = trim(ls[0]);
        let rest = ls.drop_first();
        if !starts_with(t, "|"@) {
            if in_table {
                seq![]
            } else {
                parse_lines(rest, in_table, past_sep)
            }
        } else if !in_table {
            if is_header(t) {
                parse_lines(rest, true, false)
            } else {
                parse_lines(rest, false, past_sep)
            }
        } else if !past_sep && contains(t, "---"@) {
            parse_lines(rest, true, true)
        } else {
            let cells = cells_of(t);
            if cells.len() < 4 || cells[0].len() == 0 {
                parse_lines(rest, true, true)
            } else {
                seq![cells.take(4)] + parse_lines(rest, true, true)
            }
        }
    }
}

/// The rows of the first task table in `content`: the table starts at a
/// header line and ends at the first line after it that does not begin
/// with `|`; the line after the header is skipped where it holds `---`;
/// lines with fewer than four cells or an empty first cell are skipped.
pub open spec fn parse_tasks(content: Seq<char>) -> Seq<Seq<Seq<char>>> {
    parse_lines(lines(content), false, false)
}

/// The trimmed cells of a table line.
fn table_cells(trimmed: &Vec<char>) -> (r: Vec<Vec<char>>)
    ensures
        views(r@) == cells_of(trimmed@),
{
    let inner = trim_matches_chars(trimmed, '|');
    let pieces = split_chars(&inner, '|');
    let mut r: Vec<Vec<char>> = Vec::new();
    let mut k: usize = 0;
    while k < pieces.len()
        invariant
            k <= pieces.len(),
            views(pieces@) == split_on(inner@, '|'),
            views(r@) == split_on(inner@, '|').take(k as int).map_values(|c: Seq<char>| trim(c)),
        decreases pieces.len() - k,
    {
        let ghost prev = r@;
        let c = trim_chars(&pieces[k]);
        assert(views(pieces@)[k as int] == pieces@[k as int]@);
        r.push(c);
        assert(views(r@) =~= views(prev).push(c@));
        k += 1;
        assert(split_on(inner@, '|').take(k as int).map_values(|c: Seq<char>| trim(c)) =~= split_on(
            inner@,
            '|',
        ).take(k - 1).map_values(|c: Seq<char>| trim(c)).push(trim(split_on(inner@, '|')[k - 1])));
    }
    assert(split_on(inner@, '|').take(k as int) =~= split_on(inner@, '|'));
    r
}

fn header_line(trimmed: &Vec<char>) -> (b: bool)
    ensures
        b == is_header(trimmed@),
{
    let lower = ascii_lowercase_chars(trimmed);
    contains_chars(&lower, &chars_of("| id")) || starts_with_chars(&lower, &chars_of("|id"))
}

fn begins_with_pipe(t: &Vec<char>) -> (b: bool)
    ensures
        b == starts_with(t@, "|"@),
{
    starts_with_chars(t, &chars_of("|"))
}

/// The rows of the first task table in `content`.
pub fn parse_tasks_md(content: &str) -> (rows: Vec<TaskRow>)
    ensures
        rows@.map_values(|r: TaskRow| r.cells()) == parse_tasks(content@),
{
    let text = chars_of(content);
    let ls = split_lines(&text);
    let ghost all = views(ls@);
    let mut rows: Vec<TaskRow> = Vec::new();
    let mut in_table = false;
    let mut past_separator = false;
    let mut i: usize = 0;
    proof {
        assert(all.skip(0) =~= all);
    }
    while i < ls.len()
        invariant
            i <= ls.len(),
            all == views(ls@),
            all == lines(content@),
            parse_tasks(content@) == rows@.map_values(|r: TaskRow| r.cells()) + parse_lines(
                all.skip(i as int),
                in_table,
                past_separator,
            ),
        ensures
            parse_tasks(content@) == rows@.map_values(|r: TaskRow| r.cells()),
        decreases ls.len() - i,
    {
        let ghost rest = all.skip(i as int);
        let ghost prev = rows@;
        assert(rest[0] == ls@[i as int]@);
        assert(rest.drop_first() =~= all.skip(i + 1));
        let trimmed = trim_chars(&ls[i]);
        if !begins_with_pipe(&trimmed) {
            if in_table {
                assert(parse_lines(rest, in_table, past_separator) == Seq::<Seq<Seq<char>>>::empty());
                assert(prev.map_values(|r: TaskRow| r.cells()) + Seq::<Seq<Seq<char>>>::empty()
                    =~= prev.map_values(|r: TaskRow| r.cells()));
                break;
            }
            i += 1;
            continue;
        }
        if !in_table {
            if header_line(&trimmed) {
                in_table = true;
                past_separator = false;
            }
            i += 1;
            continue;
        }
        if !past_separator {
            past_separator = true;
            if contains_chars(&trimmed, &chars_of("---")) {
                i += 1;
                continue;
            }
        }
        let cells = table_cells(&trimmed);
        if cells.len() < 4 || cells[0].len() == 0 {
            i += 1;
            continue;
        }
        assert(views(cells@)[0] == cells@[0]@);
        let row = TaskRow {
            id: string_of(&cells[0]),
            title: string_of(&cells[1]),
            owner: string_of(&cells[2]),
            md_status: string_of(&cells[3]),
        };
        proof {
            assert(views(cells@)[1] == cells@[1]@);
            assert(views(cells@)[2] == cells@[2]@);
            assert(views(cells@)[3] == cells@[3]@);
            assert(row.cells() =~= cells_of(trim(rest[0])).take(4));
        }
        rows.push(row);
        assert(rows@.map_values(|r: TaskRow| r.cells()) =~= prev.map_values(|r: TaskRow| r.cells()).push(
            row.cells(),
        ));
        assert(prev.map_values(|r: TaskRow| r.cells()) + parse_lines(rest, in_table, past_separator)
            =~= rows@.map_values(|r: TaskRow| r.cells()) + parse_lines(all.skip(i + 1), true, true));
        i += 1;
    }
    rows
}


/// The length of `s` in UTF-8 bytes, as `str::len` gives it.
pub open spec fn byte_len(s: Seq<char>) -> usize {
    encode_utf8(s).len() as usize
}

/// `n` spaces.
pub open spec fn spaces(n: nat) -> Seq<char> {
    Seq::new(n, |i: int| ' ')
}

/// `s` left-aligned in a field of `width` characters, as `{:<width$}` writes it.
pub open spec fn pad(s: Seq<char>, width: nat) -> Seq<char> {
    if s.len() < width {
        s + spaces((width - s.len()) as nat)
    } else {
        s
    }
}

/// The cells after the status cell, each written as ` <cell> |`.
pub open spec fn trailing_cells(es: Seq<Seq<char>>) -> Seq<char>
    decreases es.len(),
{
    if es.len() == 0 {
        seq![]
    } else {
        " "@ + es[0] + " |"@ + trailing_cells(es.drop_first())
    }
}

proof fn lemma_trailing_push(a: Seq<Seq<char>>, x: Seq<char>)
    ensures
        trailing_cells(a.push(x)) == trailing_cells(a) + (" "@ + x + " |"@),
    decreases a.len(),
{
    if a.len() == 0 {
        assert(a.push(x).drop_first() =~= Seq::<Seq<char>>::empty());
        assert(trailing_cells(a.push(x).drop_first()) == Seq::<char>::empty());
        assert(trailing_cells(a) == Seq::<char>::empty());
        assert(a.push(x)[0] == x);
        assert(trailing_cells(a.push(x)) =~= trailing_cells(a) + (" "@ + x + " |"@));
    } else {
        lemma_trailing_push(a.drop_first(), x);
        assert(a.push(x).drop_first() =~= a.drop_first().push(x));
        assert(a.push(x)[0] == a[0]);
        assert(trailing_cells(a.push(x)) =~= trailing_cells(a) + (" "@ + x + " |"@));
    }
}

/// The table line written for a patched row: the first three cells each in
/// a field as wide as its byte length, the new status in a field as wide as
/// the larger byte length of the old and the new status, then the cells
/// after the status cell as they were read.
pub open spec fn patched_line(cells: Seq<Seq<char>>, status: Seq<char>) -> Seq<char> {
    let w3 = if byte_len(cells[3]) >= byte_len(status) {
        byte_len(cells[3])
    } else {
        byte_len(status)
    };
    "| "@ + pad(cells[0], byte_len(cells[0]) as nat) + " | "@ + pad(cells[1], byte_len(cells[1]) as nat)
        + " | "@ + pad(cells[2], byte_len(cells[2]) as nat) + " | "@ + pad(status, w3 as nat) + " |"@
        + trailing_cells(cells.skip(4))
}

/// The new status of the first patch for task `id`, if any.
pub open spec fn find_patch(patches: Seq<(String, String)>, id: Seq<char>) -> Option<Seq<char>>
    decreases patches.len(),
{
    if patches.len() == 0 {
        None
    } else if patches[0].0@ == id {
        Some(patches[0].1@)
    } else {
        find_patch(patches.drop_first(), id)
    }
}

/// What is written for one line (a line feed follows it), and the state
/// after it (whether a table has begun, whether the line after its header
/// has been seen). A data row of a table (a line after the header, but not
/// a `---` line right after it) with at least four cells whose first cell
/// has a patch is rewritten; every other line is kept as it is.
pub open spec fn patch_one(line: Seq<char>, patches: Seq<(String, String)>, in_table: bool, past_sep: bool) -> (Seq<char>, bool, bool) {
    let t = trim(line);
    if starts_with(t, "|"@) {
        if !in_table {
            if is_header(t) {
                (line, true, false)
            } else {
                (line, false, past_sep)
            }
        } else if !past_sep && contains(t, "---"@) {
            (line, true, true)
        } else {
            let cells = cells_of(t);
            if cells.len() >= 4 && find_patch(patches, cells[0]) is Some {
                (patched_line(cells, find_patch(patches, cells[0])->0), true, true)
            } else {
                (line, true, true)
            }
        }
    } else {
        (line, false, past_sep)
    }
}

/// The text written for the lines `ls`, each followed by a line feed, in
/// the state left by the lines before them.
pub open spec fn patch_lines(ls: Seq<Seq<char>>, patches: Seq<(String, String)>, in_table: bool, past_sep: bool) -> Seq<char>
    decreases ls.len(),
{
    if ls.len() == 0 {
        seq![]
    } else {
        let (w, it, ps) = patch_one(ls[0], patches, in_table, past_sep);
        w + "\n"@ + patch_lines(ls.drop_first(), patches, it, ps)
    }
}

/// `content` with the status cell of each patched task row replaced.
pub open spec fn patch_tasks(content: Seq<char>, patches: Seq<(String, String)>) -> Seq<char> {
    patch_lines(lines(content), patches, false, false)
}

fn find_patch_for(patches: &[(String, String)], id: &Vec<char>) -> (r: Option<Vec<char>>)
    ensures
        match r {
            Some(v) => find_patch(patches@, id@) == Some(v@),
            None => find_patch(patches@, id@) is None,
        },
{
    let mut k: usize = 0;
    assert(patches@.skip(0) =~= patches@);
    while k < patches.len()
        invariant
            k <= patches@.len(),
            find_patch(patches@, id@) == find_patch(patches@.skip(k as int), id@),
        decreases patches.len() - k,
    {
        let ghost rest = patches@.skip(k as int);
        assert(rest[0] == patches@[k as int]);
        assert(rest.drop_first() =~= patches@.skip(k + 1));
        let pid = chars_of(patches[k].0.as_str());
        if eq_chars(&pid, id) {
            return Some(chars_of(patches[k].1.as_str()));
        }
        k += 1;
    }
    None
}

fn push_padded(out: &mut Vec<char>, s: &Vec<char>, width: usize)
    ensures
        final(out)@ == old(out)@ + pad(s@, width as nat),
{
    push_chars(out, s);
    if s.len() < width {
        let mut k: usize = s.len();
        while k < width
            invariant
                s.len() <= k <= width,
                out@ == old(out)@ + s@ + spaces((k - s.len()) as nat),
            decreases width - k,
        {
            out.push(' ');
            k += 1;
            assert(out@ =~= old(out)@ + s@ + spaces((k - s.len()) as nat));
        }
    } else {
        assert(out@ =~= old(out)@ + pad(s@, width as nat));
    }
}

fn str_byte_len(s: &Vec<char>) -> (n: usize)
    ensures
        n == byte_len(s@),
{
    let t = string_of(s);
    t.as_str().len()
}

fn write_patched(out: &mut Vec<char>, cells: &Vec<Vec<char>>, new_status: &Vec<char>)
    requires
        cells.len() >= 4,
    ensures
        final(out)@ == old(out)@ + patched_line(views(cells@), new_status@),
{
    let ghost c = views(cells@);
    assert(c[0] == cells@[0]@ && c[1] == cells@[1]@ && c[2] == cells@[2]@ && c[3] == cells@[3]@);
    let w3a = str_byte_len(&cells[3]);
    let w3b = str_byte_len(new_status);
    let w3 = if w3a >= w3b {
        w3a
    } else {
        w3b
    };
    let w0 = str_byte_len(&cells[0]);
    let w1 = str_byte_len(&cells[1]);
    let w2 = str_byte_len(&cells[2]);
    push_chars(out, &chars_of("| "));
    push_padded(out, &cells[0], w0);
    push_chars(out, &chars_of(" | "));
    push_padded(out, &cells[1], w1);
    push_chars(out, &chars_of(" | "));
    push_padded(out, &cells[2], w2);
    push_chars(out, &chars_of(" | "));
    push_padded(out, new_status, w3);
    push_chars(out, &chars_of(" |"));
    let ghost head = out@;
    let mut k: usize = 4;
    proof {
        assert(c.subrange(4, 4) =~= Seq::<Seq<char>>::empty());
    }
    while k < cells.len()
        invariant
            4 <= k <= cells.len(),
            c == views(cells@),
            out@ == head + trailing_cells(c.subrange(4, k as int)),
        decreases cells.len() - k,
    {
        let ghost prev = out@;
        push_chars(out, &chars_of(" "));
        push_chars(out, &cells[k]);
        push_chars(out, &chars_of(" |"));
        proof {
            assert(c[k as int] == cells@[k as int]@);
            lemma_trailing_push(c.subrange(4, k as int), c[k as int]);
            assert(c.subrange(4, k + 1) =~= c.subrange(4, k as int).push(c[k as int]));
            assert(out@ =~= head + trailing_cells(c.subrange(4, k + 1)));
        }
        k += 1;
    }
    assert(c.subrange(4, cells.len() as int) =~= c.skip(4));
    assert(out@ =~= old(out)@ + patched_line(c, new_status@));
}

fn patch_line(line: &Vec<char>, patches: &[(String, String)], in_table: bool, past_sep: bool) -> (r: (Vec<char>, bool, bool))
    ensures
        (r.0@, r.1, r.2) == patch_one(line@, patches@, in_table, past_sep),
{
    let trimmed = trim_chars(line);
    let mut out: Vec<char> = Vec::new();
    let mut it = in_table;
    let mut ps = past_sep;
    let mut written = false;
    if begins_with_pipe(&trimmed) {
        if !in_table {
            if header_line(&trimmed) {
                it = true;
                ps = false;
            }
        } else if !past_sep && contains_chars(&trimmed, &chars_of("---")) {
            ps = true;
        } else {
            ps = true;
            let cells = table_cells(&trimmed);
            if cells.len() >= 4 {
                assert(views(cells@)[0] == cells@[0]@);
                match find_patch_for(patches, &cells[0]) {
                    Some(new_status) => {
                        write_patched(&mut out, &cells, &new_status);
                        written = true;
                    },
                    None => {},
                }
            }
        }
    } else {
        it = false;
    }
    if !written {
        push_chars(&mut out, line);
    }
    (out, it, ps)
}

/// Rewrites `content`, replacing only the status cell of the task rows
/// that `patches` names, as (task id, new status) pairs.
pub fn patch_tasks_md(content: &str, patches: &[(String, String)]) -> (out: String)
    ensures
        out@ == patch_tasks(content@, patches@),
{
    let text = chars_of(content);
    let ls = split_lines(&text);
    let ghost all = views(ls@);
    let mut out: Vec<char> = Vec::new();
    let mut in_table = false;
    let mut past_separator = false;
    let mut i: usize = 0;
    proof {
        assert(all.skip(0) =~= all);
    }
    while i < ls.len()
        invariant
            i <= ls.len(),
            all == views(ls@),
            all == lines(content@),
            patch_tasks(content@, patches@) == out@ + patch_lines(
                all.skip(i as int),
                patches@,
                in_table,
                past_separator,
            ),
        decreases ls.len() - i,
    {
        let ghost rest = all.skip(i as int);
        let ghost prev = out@;
        assert(rest[0] == ls@[i as int]@);
        assert(rest.drop_first() =~= all.skip(i + 1));
        let (w, it, ps) = patch_line(&ls[i], patches, in_table, past_separator);
        push_chars(&mut out, &w);
        push_str(&mut out, "\n");
        in_table = it;
        past_separator = ps;
        assert(prev + (w@ + "\n"@ + patch_lines(all.skip(i + 1), patches@, it, ps)) =~= out@ + patch_lines(
            all.skip(i + 1),
            patches@,
            in_table,
            past_separator,
        ));
        i += 1;
    }
    proof {
        assert(all.skip(i as int) =~= Seq::<Seq<char>>::empty());
        assert(out@ + Seq::<char>::empty() =~= out@);
    }
    string_of(&out)
}


/// What the queue shows of a task.
#[derive(Debug, Clone, Copy, PartialEq, Eq, Structural)]
pub enum QueueVerdict {
    /// The queue holds no item for the task.
    NotQueued,
    /// At least one item is pending or processing.
    InProgress,
    /// All matching items are done.
    Done,
    /// At least one item failed, and none is pending or processing.
    Failed,
}

/// An item for task `task_id`: its context has the line `task_id: <task_id>`.
pub open spec fn is_for_task(item: QueueItem, task_id: Seq<char>) -> bool {
    match item.context {
        Some(c) => has_line(c@, "task_id: "@ + task_id),
        None => false,
    }
}

/// Pending or processing; an unrecognized status is shown as pending and
/// counts as pending here.
pub open spec fn is_active(st: QueueStatus) -> bool {
    st == QueueStatus::Pending || st == QueueStatus::Processing || st == QueueStatus::Unrecognized
}

/// What the queue shows of task `task_id`, from the items for it.
pub open spec fn verdict_of(items: Seq<QueueItem>, task_id: Seq<char>) -> QueueVerdict {
    let m = |x: QueueItem| is_for_task(x, task_id);
    if count_marked(items.map_values(m)) == 0 {
        QueueVerdict::NotQueued
    } else if exists|i: int| 0 <= i < items.len() && m(#[trigger] items[i]) && is_active(items[i].status) {
        QueueVerdict::InProgress
    } else if exists|i: int| 0 <= i < items.len() && m(#[trigger] items[i]) && items[i].status == QueueStatus::Failed {
        QueueVerdict::Failed
    } else if forall|i: int| 0 <= i < items.len() && m(#[trigger] items[i]) ==> items[i].status == QueueStatus::Done {
        QueueVerdict::Done
    } else {
        QueueVerdict::NotQueued
    }
}

/// What the queue shows of task `task_id`, and how many items are for it.
pub fn verdict_for_task(items: &[QueueItem], task_id: &str) -> (r: (QueueVerdict, usize))
    ensures
        r.0 == verdict_of(items@, task_id@),
        r.1 == count_marked(items@.map_values(|x: QueueItem| is_for_task(x, task_id@))),
{
    let mut needle = chars_of("task_id: ");
    push_str(&mut needle, task_id);
    let ghost m = |x: QueueItem| is_for_task(x, task_id@);
    let ghost marks = items@.map_values(m);
    let mut count: usize = 0;
    let mut any_active = false;
    let mut any_failed = false;
    let mut all_done = true;
    let mut i: usize = 0;
    while i < items.len()
        invariant
            i <= items@.len(),
            needle@ == "task_id: "@ + task_id@,
            m == |x: QueueItem| is_for_task(x, task_id@),
            marks == items@.map_values(m),
            count == count_marked(marks.take(i as int)),
            count <= i,
            any_active <==> exists|k: int| 0 <= k < i && m(#[trigger] items@[k]) && is_active(items@[k].status),
            any_failed <==> exists|k: int| 0 <= k < i && m(#[trigger] items@[k]) && items@[k].status == QueueStatus::Failed,
            all_done <==> forall|k: int| 0 <= k < i && m(#[trigger] items@[k]) ==> items@[k].status == QueueStatus::Done,
        decreases items@.len() - i,
    {
        assert(marks.take(i + 1).drop_last() =~= marks.take(i as int));
        let matched = match &items[i].context {
            Some(c) => has_line_chars(&chars_of(c.as_str()), &needle),
            None => false,
        };
        if matched {
            count += 1;
            let st = items[i].status;
            if st == QueueStatus::Pending || st == QueueStatus::Processing || st == QueueStatus::Unrecognized {
                any_active = true;
            }
            if st == QueueStatus::Failed {
                any_failed = true;
            }
            if st != QueueStatus::Done {
                all_done = false;
            }
        }
        i += 1;
    }
    assert(marks.take(items@.len() as int) =~= marks);
    let v = if count == 0 {
        QueueVerdict::NotQueued
    } else if any_active {
        QueueVerdict::InProgress
    } else if any_failed {
        QueueVerdict::Failed
    } else if all_done {
        QueueVerdict::Done
    } else {
        QueueVerdict::NotQueued
    };
    (v, count)
}

/// Whether a file status disagrees with what the queue shows: the status,
/// lowercased, is `done`, `in-progress`, `todo` or `failed` exactly when
/// the queue shows done, in progress, not queued or failed.
pub open spec fn is_drift(md_status: Seq<char>, v: QueueVerdict) -> bool {
    let l = ascii_lowercase(md_status);
    !((l == "done"@ && v == QueueVerdict::Done) || (l == "in-progress"@ && v == QueueVerdict::InProgress)
        || (l == "todo"@ && v == QueueVerdict::NotQueued) || (l == "failed"@ && v == QueueVerdict::Failed))
}

/// The file status that the queue's verdict calls for, where it calls for one.
pub open spec fn sync_status(v: QueueVerdict) -> Option<Seq<char>> {
    match v {
        QueueVerdict::Done => Some("done"@),
        QueueVerdict::InProgress => Some("in-progress"@),
        QueueVerdict::Failed => Some("failed"@),
        QueueVerdict::NotQueued => None,
    }
}

/// The queue column of the status table.
pub open spec fn queue_label_text(v: QueueVerdict, count: nat) -> Seq<char> {
    match v {
        QueueVerdict::NotQueued => "\u{2500}"@,
        QueueVerdict::InProgress => "in-progress ("@ + decimal(count) + ")"@,
        QueueVerdict::Done => "done ("@ + decimal(count) + ")"@,
        QueueVerdict::Failed => "FAILED ("@ + decimal(count) + ")"@,
    }
}

/// The queue column of the status table.
pub fn queue_label(v: QueueVerdict, count: usize) -> (s: String)
    ensures
        s@ == queue_label_text(v, count as nat),
{
    let mut out: Vec<char> = Vec::new();
    match v {
        QueueVerdict::NotQueued => {
            push_str(&mut out, "\u{2500}");
        },
        QueueVerdict::InProgress => {
            push_str(&mut out, "in-progress (");
            push_chars(&mut out, &decimal_chars(count as u64));
            push_str(&mut out, ")");
        },
        QueueVerdict::Done => {
            push_str(&mut out, "done (");
            push_chars(&mut out, &decimal_chars(count as u64));
            push_str(&mut out, ")");
        },
        QueueVerdict::Failed => {
            push_str(&mut out, "FAILED (");
            push_chars(&mut out, &decimal_chars(count as u64));
            push_str(&mut out, ")");
        },
    }
    string_of(&out)
}

/// Whether the file status disagrees with the queue's verdict.
pub fn drift(md_status: &str, v: QueueVerdict) -> (b: bool)
    ensures
        b == is_drift(md_status@, v),
{
    let l = ascii_lowercase_chars(&chars_of(md_status));
    let agree = (eq_chars(&l, &chars_of("done")) && v == QueueVerdict::Done) || (eq_chars(
        &l,
        &chars_of("in-progress"),
    ) && v == QueueVerdict::InProgress) || (eq_chars(&l, &chars_of("todo")) && v
        == QueueVerdict::NotQueued) || (eq_chars(&l, &chars_of("failed")) && v == QueueVerdict::Failed);
    !agree
}

/// One task row held against the queue.
#[derive(Debug)]
pub struct TaskAudit {
    pub verdict: QueueVerdict,
    pub queue_count: usize,
    pub drift: bool,
}

/// The audit of each row, the number of rows with drift, and the patches
/// that `--sync` applies: for each row with drift in order, its id and the
/// status the queue calls for, where it calls for one.
pub open spec fn audit_spec(tasks: Seq<TaskRow>, items: Seq<QueueItem>, sync: bool, audits: Seq<TaskAudit>, drift_count: nat, patches: Seq<(String, String)>) -> bool {
    &&& audits.len() == tasks.len()
    &&& forall|k: int|
        0 <= k < tasks.len() ==> {
            let a = #[trigger] audits[k];
            &&& a.verdict == verdict_of(items, tasks[k].id@)
            &&& a.queue_count == count_marked(items.map_values(|x: QueueItem| is_for_task(x, tasks[k].id@)))
            &&& a.drift == is_drift(tasks[k].md_status@, a.verdict)
        }
    &&& drift_count == count_marked(audits.map_values(|a: TaskAudit| a.drift))
    &&& patches.map_values(|p: (String, String)| (p.0@, p.1@)) == wanted_patches(tasks, audits, sync)
}

/// The (id, status) patches that `--sync` calls for, in row order.
pub open spec fn wanted_patches(tasks: Seq<TaskRow>, audits: Seq<TaskAudit>, sync: bool) -> Seq<(Seq<char>, Seq<char>)>
    decreases tasks.len(),
{
    if tasks.len() == 0 || audits.len() == 0 {
        seq![]
    } else {
        let earlier = wanted_patches(tasks.drop_last(), audits.drop_last(), sync);
        let a = audits.last();
        if sync && a.drift && sync_status(a.verdict) is Some {
            earlier.push((tasks.last().id@, sync_status(a.verdict)->0))
        } else {
            earlier
        }
    }
}

fn sync_text(v: QueueVerdict) -> (r: Option<String>)
    ensures
        match sync_status(v) {
            Some(t) => r matches Some(s) && s@ == t,
            None => r is None,
        },
{
    match v {
        QueueVerdict::Done => Some("done".to_owned()),
        QueueVerdict::InProgress => Some("in-progress".to_owned()),
        QueueVerdict::Failed => Some("failed".to_owned()),
        QueueVerdict::NotQueued => None,
    }
}

/// Holds each task row against the queue items of its project.
pub fn audit_tasks(tasks: &[TaskRow], items: &[QueueItem], sync: bool) -> (r: (Vec<TaskAudit>, usize, Vec<(String, String)>))
    ensures
        audit_spec(tasks@, items@, sync, r.0@, r.1 as nat, r.2@),
{
    let mut audits: Vec<TaskAudit> = Vec::new();
    let mut patches: Vec<(String, String)> = Vec::new();
    let mut drift_count: usize = 0;
    let mut k: usize = 0;
    while k < tasks.len()
        invariant
            k <= tasks@.len(),
            audits@.len() == k,
            drift_count <= k,
            forall|t: int|
                0 <= t < k ==> {
                    let a = #[trigger] audits@[t];
                    &&& a.verdict == verdict_of(items@, tasks@[t].id@)
                    &&& a.queue_count == count_marked(items@.map_values(|x: QueueItem| is_for_task(x, tasks@[t].id@)))
                    &&& a.drift == is_drift(tasks@[t].md_status@, a.verdict)
                },
            drift_count == count_marked(audits@.map_values(|a: TaskAudit| a.drift)),
            patches@.map_values(|p: (String, String)| (p.0@, p.1@)) == wanted_patches(tasks@.take(k as int), audits@, sync),
        decreases tasks@.len() - k,
    {
        let task = &tasks[k];
        let (verdict, count) = verdict_for_task(items, task.id.as_str());
        let d = drift(task.md_status.as_str(), verdict);
        let ghost prev_a = audits@;
        let ghost prev_p = patches@;
        audits.push(TaskAudit { verdict, queue_count: count, drift: d });
        assert(audits@.map_values(|a: TaskAudit| a.drift).drop_last() =~= prev_a.map_values(|a: TaskAudit| a.drift));
        if d {
            drift_count += 1;
        }
        if sync && d {
            match sync_text(verdict) {
                Some(s) => {
                    patches.push((task.id.clone(), s));
                    assert(patches@.map_values(|p: (String, String)| (p.0@, p.1@)) =~= prev_p.map_values(
                        |p: (String, String)| (p.0@, p.1@),
                    ).push((task.id@, sync_status(verdict)->0)));
                },
                None => {},
            }
        }
        assert(tasks@.take(k + 1).drop_last() =~= tasks@.take(k as int));
        assert(audits@.drop_last() =~= prev_a);
        k += 1;
    }
    assert(tasks@.take(k as int) =~= tasks@);
    (audits, drift_count, patches)
}


/// `PathBuf::push` on Unix: an absolute `part` replaces `base`; otherwise
/// `part` is added after a `/`, which is written only where `base` is not
/// empty and does not already end with one.
pub open spec fn join_path(base: Seq<char>, part: Seq<char>) -> Seq<char> {
    if part.len() > 0 && part[0] == '/' {
        part
    } else if base.len() > 0 && base.last() != '/' {
        base + "/"@ + part
    } else {
        base + part
    }
}

/// `base` joined with `part` as a path.
pub fn join_path_chars(base: &Vec<char>, part: &Vec<char>) -> (r: Vec<char>)
    ensures
        r@ == join_path(base@, part@),
{
    if part.len() > 0 && part[0] == '/' {
        copy_range(part, 0, part.len())
    } else {
        let mut r = copy_range(base, 0, base.len());
        if base.len() > 0 && base[base.len() - 1] != '/' {
            r.push('/');
        }
        push_chars(&mut r, part);
        proof {
            reveal_strlit("/");
        }
        assert(r@ =~= join_path(base@, part@));
        r
    }
}

/// Where the `tasks.md` of a change lives under the home directory `home`:
/// `<home>/coding-projects/<project>/openspec/changes/<change>/tasks.md`.
pub open spec fn tasks_path_text(home: Seq<char>, project: Seq<char>, change: Seq<char>) -> Seq<char> {
    join_path(
        join_path(
            join_path(
                join_path(join_path(join_path(home, "coding-projects"@), project), "openspec"@),
                "changes"@,
            ),
            change,
        ),
        "tasks.md"@,
    )
}

/// The path of the `tasks.md` of `change` in `project`, under the home
/// directory; an error where there is no home directory.
pub fn tasks_md_path(home: Option<&str>, project: &str, change: &str) -> (r: Result<String, String>)
    ensures
        match home {
            Some(h) => r matches Ok(p) && p@ == tasks_path_text(h@, project@, change@),
            None => r matches Err(e) && e@ == "Cannot resolve $HOME"@,
        },
{
    match home {
        None => Err("Cannot resolve $HOME".to_owned()),
        Some(h) => {
            let p = join_path_chars(&chars_of(h), &chars_of("coding-projects"));
            let p = join_path_chars(&p, &chars_of(project));
            let p = join_path_chars(&p, &chars_of("openspec"));
            let p = join_path_chars(&p, &chars_of("changes"));
            let p = join_path_chars(&p, &chars_of(change));
            let p = join_path_chars(&p, &chars_of("tasks.md"));
            Ok(string_of(&p))
        },
    }
}

} // verus!
