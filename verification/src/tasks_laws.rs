//! What reading `tasks.md` gives after it is patched: the rows read back
//! are the rows read before, with the status of each patched row replaced
//! by its patch; after `--sync`, every drifting row whose task the queue
//! shows as done, in progress or failed carries that status and shows no
//! drift. Also: what a hand-off through `queue_enqueue` writes, and how it
//! is found and guarded.

use vstd::prelude::*;
use crate::queue::{QueueStatus, count_marked, is_listing, is_new_item, listed, project_keeps, EnqueueRequest, ListOrder, QueueItem};
use crate::drain::{context_field, context_part, field_in, task_guard};
use crate::enqueue_tool::{context_for, given, request_for, EnqueueArgs};
use crate::tasks::{
    is_active, is_for_task, audit_spec, cells_of, find_patch, is_drift, is_header, pad, parse_lines, parse_tasks,
    patch_lines, patch_one, patch_tasks, patched_line, spaces, sync_status, verdict_of,
    wanted_patches, QueueVerdict, TaskAudit, TaskRow,
};
use crate::text::{
    has_line, ascii_lowercase, contains, find_char, occurs_at, is_ws, lemma_find_char, lemma_lines_no_nl,
    lemma_split_pieces, lemma_trim_excludes, lemma_trim_idempotent, lemma_trim_matches_excludes,
    lemma_trim_range, lemma_trim_shape, lemma_trim_strip_cr, lines, split_on, starts_with,
    strip_cr, trim, trim_end_matches, trim_matches, trim_start_matches,
};

verus! {

/// `x` does not occur in `s`.
pub open spec fn excl(s: Seq<char>, x: char) -> bool {
    forall|i: int| 0 <= i < s.len() ==> s[i] != x
}

/// A status that a patch can write and read back: no `|`, no line feed,
/// nothing to trim.
pub open spec fn clean_status(s: Seq<char>) -> bool {
    excl(s, '|') && excl(s, '\n') && trim(s) == s
}

/// Every patch writes a clean status.
pub open spec fn clean_patches(patches: Seq<(String, String)>) -> bool {
    forall|k: int| 0 <= k < patches.len() ==> clean_status(#[trigger] patches[k].1@)
}

/// The rows read from the lines `ls` after they are patched: those read
/// from them before, with the status of each data row whose id has a patch
/// replaced by the patch; but where the first row after a header without a
/// `---` line gets a status holding `---`, it is then read as that line and
/// gives no row.
pub open spec fn patched_rows(ls: Seq<Seq<char>>, patches: Seq<(String, String)>, in_table: bool, past_sep: bool) -> Seq<Seq<Seq<char>>>
    decreases ls.len(),
{
    if ls.len() == 0 {
        seq![]
    } else {
        let t = trim(ls[0]);
        let rest = ls.drop_first();
        if !starts_with(t, "|"@) {
            if in_table {
                seq![]
            } else {
                patched_rows(rest, patches, in_table, past_sep)
            }
        } else if !in_table {
            if is_header(t) {
                patched_rows(rest, patches, true, false)
            } else {
                patched_rows(rest, patches, false, past_sep)
            }
        } else if !past_sep && contains(t, "---"@) {
            patched_rows(rest, patches, true, true)
        } else {
            let cells = cells_of(t);
            if cells.len() < 4 || cells[0].len() == 0 {
                patched_rows(rest, patches, true, true)
            } else if find_patch(patches, cells[0]) is Some {
                if !past_sep && contains(find_patch(patches, cells[0])->0, "---"@) {
                    patched_rows(rest, patches, true, true)
                } else {
                    seq![cells.take(3).push(find_patch(patches, cells[0])->0)] + patched_rows(rest, patches, true, true)
                }
            } else {
                seq![cells.take(4)] + patched_rows(rest, patches, true, true)
            }
        }
    }
}

/// Whether patching the lines `ls` gives the first row after a header
/// without a `---` line a status that holds `---`.
pub open spec fn hides_row(ls: Seq<Seq<char>>, patches: Seq<(String, String)>, in_table: bool, past_sep: bool) -> bool
    decreases ls.len(),
{
    if ls.len() == 0 {
        false
    } else {
        let t = trim(ls[0]);
        let rest = ls.drop_first();
        if !starts_with(t, "|"@) {
            if in_table {
                false
            } else {
                hides_row(rest, patches, in_table, past_sep)
            }
        } else if !in_table {
            if is_header(t) {
                hides_row(rest, patches, true, false)
            } else {
                hides_row(rest, patches, false, past_sep)
            }
        } else if !past_sep && contains(t, "---"@) {
            hides_row(rest, patches, true, true)
        } else {
            let cells = cells_of(t);
            if !past_sep && cells.len() >= 4 && cells[0].len() > 0 && find_patch(patches, cells[0]) is Some
                && contains(find_patch(patches, cells[0])->0, "---"@) {
                true
            } else {
                hides_row(rest, patches, true, true)
            }
        }
    }
}

/// The lines written for `ls`, without their line feeds.
pub open spec fn written(ls: Seq<Seq<char>>, patches: Seq<(String, String)>, in_table: bool, past_sep: bool) -> Seq<Seq<char>>
    decreases ls.len(),
{
    if ls.len() == 0 {
        seq![]
    } else {
        let (w, it, ps) = patch_one(ls[0], patches, in_table, past_sep);
        seq![w] + written(ls.drop_first(), patches, it, ps)
    }
}

/// The lines `ws`, each followed by a line feed.
pub open spec fn join_lines(ws: Seq<Seq<char>>) -> Seq<char>
    decreases ws.len(),
{
    if ws.len() == 0 {
        seq![]
    } else {
        ws[0] + "\n"@ + join_lines(ws.drop_first())
    }
}

proof fn lemma_patch_is_join(ls: Seq<Seq<char>>, patches: Seq<(String, String)>, it: bool, ps: bool)
    ensures
        patch_lines(ls, patches, it, ps) == join_lines(written(ls, patches, it, ps)),
    decreases ls.len(),
{
    if ls.len() > 0 {
        let (w, it2, ps2) = patch_one(ls[0], patches, it, ps);
        lemma_patch_is_join(ls.drop_first(), patches, it2, ps2);
        let ws = written(ls, patches, it, ps);
        assert(ws[0] == w);
        assert(ws.drop_first() =~= written(ls.drop_first(), patches, it2, ps2));
    }
}

proof fn lemma_written_without_patches(ls: Seq<Seq<char>>, it: bool, ps: bool)
    ensures
        written(ls, Seq::<(String, String)>::empty(), it, ps) == ls,
    decreases ls.len(),
{
    if ls.len() > 0 {
        let none = Seq::<(String, String)>::empty();
        let (w, it2, ps2) = patch_one(ls[0], none, it, ps);
        assert(w == ls[0]);
        lemma_written_without_patches(ls.drop_first(), it2, ps2);
        assert(seq![ls[0]] + ls.drop_first() =~= ls);
    }
}

/// Patching with no patches rewrites nothing: each line of the content is
/// written as it was, followed by a line feed.
pub proof fn law_no_patches_keeps_lines(content: Seq<char>)
    ensures
        patch_tasks(content, Seq::<(String, String)>::empty()) == join_lines(lines(content)),
{
    let none = Seq::<(String, String)>::empty();
    lemma_patch_is_join(lines(content), none, false, false);
    lemma_written_without_patches(lines(content), false, false);
}

proof fn lemma_lines_of_join(ws: Seq<Seq<char>>)
    requires
        forall|k: int| 0 <= k < ws.len() ==> excl(#[trigger] ws[k], '\n'),
    ensures
        lines(join_lines(ws)) == ws.map_values(|w: Seq<char>| strip_cr(w)),
    decreases ws.len(),
{
    reveal_strlit("\n");
    if ws.len() == 0 {
        assert(ws.map_values(|w: Seq<char>| strip_cr(w)) =~= Seq::<Seq<char>>::empty());
    } else {
        let w = ws[0];
        let rest = join_lines(ws.drop_first());
        let s = join_lines(ws);
        assert(s == w + "\n"@ + rest);
        assert(excl(w, '\n'));
        assert forall|t: int| 0 <= t < w.len() implies #[trigger] s[t] != '\n' by {
            assert(s[t] == w[t]);
        }
        assert(s[w.len() as int] == '\n');
        lemma_find_char(s, '\n', w.len() as int);
        assert(s.take(w.len() as int) =~= w);
        assert(s.skip(w.len() as int + 1) =~= rest);
        assert forall|k: int| 0 <= k < ws.drop_first().len() implies excl(#[trigger] ws.drop_first()[k], '\n') by {
            assert(ws.drop_first()[k] == ws[k + 1]);
        }
        lemma_lines_of_join(ws.drop_first());
        assert(ws.map_values(|w: Seq<char>| strip_cr(w)) =~= seq![strip_cr(w)] + ws.drop_first().map_values(
            |w: Seq<char>| strip_cr(w),
        ));
    }
}

proof fn lemma_excl_concat(a: Seq<char>, b: Seq<char>, x: char)
    requires
        excl(a, x),
        excl(b, x),
    ensures
        excl(a + b, x),
{
    assert forall|i: int| 0 <= i < (a + b).len() implies (a + b)[i] != x by {
        if i < a.len() {
            assert((a + b)[i] == a[i]);
        } else {
            assert((a + b)[i] == b[i - a.len()]);
        }
    }
}

/// One cell as a patched line writes it, with its two surrounding spaces.
pub open spec fn cell_piece(x: Seq<char>, n: nat) -> Seq<char> {
    " "@ + x + spaces(n) + " "@
}

proof fn lemma_pad(x: Seq<char>, w: nat)
    ensures
        pad(x, w) == x + spaces(if x.len() < w { (w - x.len()) as nat } else { 0 }),
{
    if x.len() >= w {
        assert(x + spaces(0) =~= x);
    }
}

proof fn lemma_piece_props(x: Seq<char>, n: nat, y: char)
    requires
        trim(x) == x,
        excl(x, y),
        y != ' ',
    ensures
        trim(cell_piece(x, n)) == x,
        excl(cell_piece(x, n), y),
{
    reveal_strlit(" ");
    let p = cell_piece(x, n);
    assert(p.len() == x.len() + n + 2);
    assert(p[0] == ' ');
    assert forall|k: int| 0 <= k < x.len() implies p[k + 1] == x[k] by {}
    assert forall|k: int| x.len() + 1 <= k < p.len() implies p[k] == ' ' by {
        if k < x.len() + 1 + n {
            assert(p[k] == spaces(n)[k - x.len() - 1]);
        }
    }
    lemma_trim_shape(x);
    assert(is_ws(' '));
    assert forall|k: int| 0 <= k < 1 implies is_ws(#[trigger] p[k]) by {}
    assert forall|k: int| 1 + x.len() <= k < p.len() implies is_ws(#[trigger] p[k]) by {
        assert(p[k] == ' ');
    }
    if x.len() > 0 {
        assert(p[1] == x[0]);
        assert(p[x.len() as int] == x[x.len() - 1]);
    }
    lemma_trim_range(p, 1, 1 + x.len() as int);
    assert(p.subrange(1, 1 + x.len() as int) =~= x);
    assert forall|i: int| 0 <= i < p.len() implies p[i] != y by {
        if 1 <= i < 1 + x.len() {
            assert(p[i] == x[i - 1]);
        }
    }
}

proof fn lemma_split_join(p: Seq<char>, q: Seq<char>)
    requires
        excl(p, '|'),
    ensures
        split_on(p + "|"@ + q, '|') == seq![p] + split_on(q, '|'),
{
    reveal_strlit("|");
    let s = p + "|"@ + q;
    assert forall|t: int| 0 <= t < p.len() implies #[trigger] s[t] != '|' by {
        assert(s[t] == p[t]);
    }
    assert(s[p.len() as int] == '|');
    lemma_find_char(s, '|', p.len() as int);
    assert(s.take(p.len() as int) =~= p);
    assert(s.skip(p.len() as int + 1) =~= q);
}

proof fn lemma_split_single(p: Seq<char>)
    requires
        excl(p, '|'),
    ensures
        split_on(p, '|') == seq![p],
{
    assert forall|t: int| 0 <= t < p.len() implies #[trigger] p[t] != '|' by {}
    lemma_find_char(p, '|', p.len() as int);
}

/// The padding a field of `width` adds after `x`.
pub open spec fn pad_n(x: Seq<char>, width: nat) -> nat {
    if x.len() < width {
        (width - x.len()) as nat
    } else {
        0
    }
}

/// The width of the status field of a patched line.
pub open spec fn status_width(cells: Seq<Seq<char>>, status: Seq<char>) -> nat {
    (if crate::tasks::byte_len(cells[3]) >= crate::tasks::byte_len(status) {
        crate::tasks::byte_len(cells[3])
    } else {
        crate::tasks::byte_len(status)
    }) as nat
}

/// The pieces `ps`, each followed by a bar.
pub open spec fn bars(ps: Seq<Seq<char>>) -> Seq<char>
    decreases ps.len(),
{
    if ps.len() == 0 {
        seq![]
    } else {
        ps[0] + "|"@ + bars(ps.drop_first())
    }
}

/// The cell pieces of a patched line: the first three cells and the new
/// status, each padded, then the cells after the status cell.
pub open spec fn pieces_of(cells: Seq<Seq<char>>, status: Seq<char>) -> Seq<Seq<char>> {
    seq![
        cell_piece(cells[0], pad_n(cells[0], crate::tasks::byte_len(cells[0]) as nat)),
        cell_piece(cells[1], pad_n(cells[1], crate::tasks::byte_len(cells[1]) as nat)),
        cell_piece(cells[2], pad_n(cells[2], crate::tasks::byte_len(cells[2]) as nat)),
        cell_piece(status, pad_n(status, status_width(cells, status))),
    ] + cells.skip(4).map_values(|e: Seq<char>| cell_piece(e, 0))
}

/// The cells a patched line reads back as.
pub open spec fn patched_cells(cells: Seq<Seq<char>>, status: Seq<char>) -> Seq<Seq<char>> {
    seq![cells[0], cells[1], cells[2], status] + cells.skip(4)
}

proof fn lemma_bars_concat(a: Seq<Seq<char>>, b: Seq<Seq<char>>)
    ensures
        bars(a + b) == bars(a) + bars(b),
    decreases a.len(),
{
    if a.len() == 0 {
        assert(a + b =~= b);
        assert(bars(a) == Seq::<char>::empty());
        assert(bars(a) + bars(b) =~= bars(b));
    } else {
        lemma_bars_concat(a.drop_first(), b);
        assert((a + b).drop_first() =~= a.drop_first() + b);
        assert((a + b)[0] == a[0]);
        assert(bars(a + b) =~= bars(a) + bars(b));
    }
}

proof fn lemma_bars_one(x: Seq<char>)
    ensures
        bars(seq![x]) == x + "|"@,
{
    assert(seq![x].drop_first() =~= Seq::<Seq<char>>::empty());
    assert(bars(seq![x].drop_first()) == Seq::<char>::empty());
    assert(bars(seq![x]) =~= x + "|"@);
}

proof fn lemma_trailing_bars(es: Seq<Seq<char>>)
    ensures
        crate::tasks::trailing_cells(es) == bars(es.map_values(|e: Seq<char>| cell_piece(e, 0))),
    decreases es.len(),
{
    let m = es.map_values(|e: Seq<char>| cell_piece(e, 0));
    if es.len() == 0 {
        assert(m.len() == 0);
        assert(bars(m) == Seq::<char>::empty());
    } else {
        reveal_strlit(" |");
        reveal_strlit(" ");
        reveal_strlit("|");
        lemma_trailing_bars(es.drop_first());
        assert(m.drop_first() =~= es.drop_first().map_values(|e: Seq<char>| cell_piece(e, 0)));
        assert(m[0] == cell_piece(es[0], 0));
        assert(spaces(0) =~= Seq::<char>::empty());
        assert(crate::tasks::trailing_cells(es) =~= bars(m));
    }
}

proof fn lemma_bars_four(p0: Seq<char>, p1: Seq<char>, p2: Seq<char>, p3: Seq<char>, rest: Seq<Seq<char>>)
    ensures
        bars(seq![p0, p1, p2, p3] + rest) == p0 + "|"@ + p1 + "|"@ + p2 + "|"@ + p3 + "|"@ + bars(rest),
{
    lemma_bars_one(p0);
    lemma_bars_one(p1);
    lemma_bars_one(p2);
    lemma_bars_one(p3);
    lemma_bars_concat(seq![p2], seq![p3]);
    lemma_bars_concat(seq![p1], seq![p2, p3]);
    lemma_bars_concat(seq![p0], seq![p1, p2, p3]);
    lemma_bars_concat(seq![p0, p1, p2, p3], rest);
    assert(seq![p2] + seq![p3] =~= seq![p2, p3]);
    assert(seq![p1] + seq![p2, p3] =~= seq![p1, p2, p3]);
    assert(seq![p0] + seq![p1, p2, p3] =~= seq![p0, p1, p2, p3]);
    assert(bars(seq![p0, p1, p2, p3] + rest) =~= p0 + "|"@ + p1 + "|"@ + p2 + "|"@ + p3 + "|"@ + bars(rest));
}

proof fn lemma_four_fields(x0: Seq<char>, x1: Seq<char>, x2: Seq<char>, x3: Seq<char>, tail: Seq<char>)
    ensures
        "| "@ + x0 + " | "@ + x1 + " | "@ + x2 + " | "@ + x3 + " |"@ + tail == "|"@ + (" "@ + x0 + " "@) + "|"@
            + (" "@ + x1 + " "@) + "|"@ + (" "@ + x2 + " "@) + "|"@ + (" "@ + x3 + " "@) + "|"@ + tail,
{
    reveal_strlit("| ");
    reveal_strlit(" | ");
    reveal_strlit(" |");
    reveal_strlit("|");
    reveal_strlit(" ");
    assert("| "@ + x0 + " | "@ + x1 + " | "@ + x2 + " | "@ + x3 + " |"@ + tail =~= "|"@ + (" "@ + x0 + " "@) + "|"@
        + (" "@ + x1 + " "@) + "|"@ + (" "@ + x2 + " "@) + "|"@ + (" "@ + x3 + " "@) + "|"@ + tail);
}

proof fn lemma_piece_is_pad(x: Seq<char>, w: nat)
    ensures
        cell_piece(x, pad_n(x, w)) == " "@ + pad(x, w) + " "@,
{
    lemma_pad(x, w);
}

proof fn lemma_patched_is(cells: Seq<Seq<char>>, status: Seq<char>)
    requires
        cells.len() >= 4,
    ensures
        patched_line(cells, status) == "|"@ + bars(pieces_of(cells, status)),
{
    let p = pieces_of(cells, status);
    let rest = cells.skip(4).map_values(|e: Seq<char>| cell_piece(e, 0));
    let w0 = crate::tasks::byte_len(cells[0]) as nat;
    let w1 = crate::tasks::byte_len(cells[1]) as nat;
    let w2 = crate::tasks::byte_len(cells[2]) as nat;
    let w3 = status_width(cells, status);
    lemma_piece_is_pad(cells[0], w0);
    lemma_piece_is_pad(cells[1], w1);
    lemma_piece_is_pad(cells[2], w2);
    lemma_piece_is_pad(status, w3);
    assert(p =~= seq![p[0], p[1], p[2], p[3]] + rest);
    lemma_bars_four(p[0], p[1], p[2], p[3], rest);
    lemma_trailing_bars(cells.skip(4));
    lemma_four_fields(pad(cells[0], w0), pad(cells[1], w1), pad(cells[2], w2), pad(status, w3), bars(rest));
    assert(pad(status, w3) == pad(status, (if crate::tasks::byte_len(cells[3]) >= crate::tasks::byte_len(status) {
        crate::tasks::byte_len(cells[3])
    } else {
        crate::tasks::byte_len(status)
    }) as nat));
}

/// Every piece of a patched line starts and ends with a space, holds no
/// character that its cell does not hold (but spaces), and trims to its
/// cell.
proof fn lemma_pieces_props(cells: Seq<Seq<char>>, status: Seq<char>, y: char)
    requires
        cells.len() >= 4,
        forall|k: int| 0 <= k < cells.len() ==> trim(#[trigger] cells[k]) == cells[k] && excl(cells[k], y),
        trim(status) == status,
        excl(status, y),
        y != ' ',
    ensures
        pieces_of(cells, status).len() == cells.len(),
        forall|k: int|
            0 <= k < cells.len() ==> {
                let q = #[trigger] pieces_of(cells, status)[k];
                &&& excl(q, y)
                &&& q.len() >= 2
                &&& q[0] == ' '
                &&& q.last() == ' '
                &&& trim(q) == patched_cells(cells, status)[k]
            },
{
    reveal_strlit(" ");
    let p = pieces_of(cells, status);
    let tg = patched_cells(cells, status);
    assert forall|k: int| 0 <= k < cells.len() implies {
        let q = #[trigger] p[k];
        &&& excl(q, y)
        &&& q.len() >= 2
        &&& q[0] == ' '
        &&& q.last() == ' '
        &&& trim(q) == tg[k]
    } by {
        let (x, n) = if k == 3 {
            (status, pad_n(status, status_width(cells, status)))
        } else if k < 3 {
            (cells[k], pad_n(cells[k], crate::tasks::byte_len(cells[k]) as nat))
        } else {
            (cells[k], 0nat)
        };
        assert(p[k] == cell_piece(x, n));
        assert(tg[k] == x);
        lemma_piece_props(x, n, y);
        let q = cell_piece(x, n);
        assert(q[0] == ' ');
        assert(q[q.len() - 1] == ' ');
    }
}

proof fn lemma_bars_excl(ps: Seq<Seq<char>>, y: char)
    requires
        y != '|',
        forall|k: int| 0 <= k < ps.len() ==> excl(#[trigger] ps[k], y),
    ensures
        excl(bars(ps), y),
    decreases ps.len(),
{
    reveal_strlit("|");
    if ps.len() > 0 {
        let r = ps.drop_first();
        assert forall|k: int| 0 <= k < r.len() implies excl(#[trigger] r[k], y) by {
            assert(r[k] == ps[k + 1]);
        }
        lemma_bars_excl(r, y);
        assert(excl(ps[0], y));
        assert(excl("|"@, y));
        lemma_excl_concat(ps[0], "|"@, y);
        lemma_excl_concat(ps[0] + "|"@, bars(r), y);
    }
}

proof fn lemma_bars_last(ps: Seq<Seq<char>>)
    requires
        ps.len() > 0,
    ensures
        bars(ps) == bars(ps.drop_last()) + ps.last() + "|"@,
{
    lemma_bars_concat(ps.drop_last(), seq![ps.last()]);
    lemma_bars_one(ps.last());
    assert(ps.drop_last() + seq![ps.last()] =~= ps);
    assert(bars(ps.drop_last()) + (ps.last() + "|"@) =~= bars(ps.drop_last()) + ps.last() + "|"@);
}

proof fn lemma_bars_split(ps: Seq<Seq<char>>)
    requires
        ps.len() > 0,
        forall|k: int| 0 <= k < ps.len() ==> excl(#[trigger] ps[k], '|'),
    ensures
        bars(ps).len() > 0,
        split_on(bars(ps).drop_last(), '|') == ps,
    decreases ps.len(),
{
    reveal_strlit("|");
    let r = ps.drop_first();
    assert(excl(ps[0], '|'));
    if ps.len() == 1 {
        assert(bars(r) == Seq::<char>::empty());
        assert(bars(ps).drop_last() =~= ps[0]);
        lemma_split_single(ps[0]);
        assert(seq![ps[0]] =~= ps);
    } else {
        assert forall|k: int| 0 <= k < r.len() implies excl(#[trigger] r[k], '|') by {
            assert(r[k] == ps[k + 1]);
        }
        lemma_bars_split(r);
        assert(bars(ps).drop_last() =~= ps[0] + "|"@ + bars(r).drop_last());
        lemma_split_join(ps[0], bars(r).drop_last());
        assert(seq![ps[0]] + r =~= ps);
    }
}

/// A patched line needs no trimming, starts with a bar, and reads back as
/// the cells it was written with.
proof fn lemma_patched_reads_back(cells: Seq<Seq<char>>, status: Seq<char>)
    requires
        cells.len() >= 4,
        forall|k: int| 0 <= k < cells.len() ==> excl(#[trigger] cells[k], '|') && trim(cells[k]) == cells[k],
        clean_status(status),
    ensures
        trim(patched_line(cells, status)) == patched_line(cells, status),
        strip_cr(patched_line(cells, status)) == patched_line(cells, status),
        starts_with(patched_line(cells, status), "|"@),
        cells_of(patched_line(cells, status)) == patched_cells(cells, status),
{
    reveal_strlit("|");
    reveal_strlit(" ");
    lemma_patched_is(cells, status);
    lemma_pieces_props(cells, status, '|');
    let p = pieces_of(cells, status);
    let b = bars(p);
    let pl = patched_line(cells, status);
    assert(p[0] == p[0]);
    assert(p[0][0] == ' ' && p[0].len() >= 2);
    lemma_bars_split(p);
    lemma_bars_last(p);
    let pz = p[p.len() - 1];
    assert(pz[pz.len() - 1] == ' ' && pz.len() >= 2);
    assert(b[0] == p[0][0]);
    assert(b[b.len() - 1] == '|');
    assert(b[b.len() - 2] == pz[pz.len() - 1]);
    assert(pl[0] == '|');
    assert(pl[pl.len() - 1] == '|');
    assert(!is_ws('|'));
    lemma_trim_range(pl, 0, pl.len() as int);
    assert(pl.subrange(0, pl.len() as int) =~= pl);
    assert(pl.take(1) =~= "|"@);
    assert(pl[pl.len() - 2] == ' ');
    crate::text::lemma_trim_end_matches_take_pub(pl, '|', pl.len() - 1);
    let u = pl.take(pl.len() - 1);
    assert(u =~= "|"@ + b.drop_last());
    assert(u[1] == ' ');
    crate::text::lemma_trim_start_matches_skip_pub(u, '|', 1);
    assert(u.skip(1) =~= b.drop_last());
    assert(trim_matches(pl, '|') == b.drop_last());
    assert(cells_of(pl) =~= patched_cells(cells, status));
}

/// A character that none of its cells holds, and that is neither a bar nor
/// a space, does not occur in a patched line.
proof fn lemma_patched_excl(cells: Seq<Seq<char>>, status: Seq<char>, y: char)
    requires
        cells.len() >= 4,
        forall|k: int| 0 <= k < cells.len() ==> trim(#[trigger] cells[k]) == cells[k] && excl(cells[k], y),
        trim(status) == status,
        excl(status, y),
        y != ' ',
        y != '|',
    ensures
        excl(patched_line(cells, status), y),
{
    reveal_strlit("|");
    lemma_patched_is(cells, status);
    lemma_pieces_props(cells, status, y);
    let p = pieces_of(cells, status);
    assert forall|k: int| 0 <= k < p.len() implies excl(#[trigger] p[k], y) by {}
    lemma_bars_excl(p, y);
    assert(excl("|"@, y));
    lemma_excl_concat("|"@, bars(p), y);
}

/// A spacer: a space or a bar.
pub open spec fn is_spacer(c: char) -> bool {
    c == ' ' || c == '|'
}

/// `p` is not empty and holds neither spaces nor bars.
pub open spec fn solid(p: Seq<char>) -> bool {
    p.len() > 0 && forall|j: int| 0 <= j < p.len() ==> !is_spacer(#[trigger] p[j])
}

/// An occurrence of a solid text in `a + b`, where a spacer stands at
/// their boundary, lies within `a` or within `b`.
proof fn lemma_contains_split(a: Seq<char>, b: Seq<char>, p: Seq<char>)
    requires
        solid(p),
        (a.len() > 0 && is_spacer(a.last())) || (b.len() > 0 && is_spacer(b[0])),
        contains(a + b, p),
    ensures
        contains(a, p) || contains(b, p),
{
    let s = a + b;
    let i = choose|i: int| occurs_at(s, p, i);
    assert(occurs_at(s, p, i));
    if i + p.len() <= a.len() {
        assert(a.subrange(i, i + p.len() as int) =~= s.subrange(i, i + p.len() as int));
        assert(occurs_at(a, p, i));
    } else if i >= a.len() {
        assert(b.subrange(i - a.len(), i - a.len() + p.len() as int) =~= s.subrange(i, i + p.len() as int));
        assert(occurs_at(b, p, i - a.len()));
    } else {
        let j1 = a.len() - 1 - i;
        let j2 = a.len() - i;
        assert(s.subrange(i, i + p.len() as int)[j1] == s[a.len() - 1]);
        assert(s.subrange(i, i + p.len() as int)[j2] == s[a.len() as int]);
        assert(p[j1] == s[a.len() - 1]);
        assert(p[j2] == s[a.len() as int]);
        if a.len() > 0 && is_spacer(a.last()) {
            assert(s[a.len() - 1] == a.last());
            assert(!is_spacer(p[j1]));
        } else {
            assert(s[a.len() as int] == b[0]);
            assert(!is_spacer(p[j2]));
        }
    }
}

proof fn lemma_spacers_hold_nothing(s: Seq<char>, p: Seq<char>)
    requires
        solid(p),
        forall|j: int| 0 <= j < s.len() ==> is_spacer(#[trigger] s[j]),
    ensures
        !contains(s, p),
{
    if contains(s, p) {
        let i = choose|i: int| occurs_at(s, p, i);
        assert(s.subrange(i, i + p.len() as int)[0] == s[i]);
        assert(!is_spacer(p[0]));
    }
}

proof fn lemma_piece_contains(x: Seq<char>, n: nat, p: Seq<char>)
    requires
        solid(p),
        contains(cell_piece(x, n), p),
    ensures
        contains(x, p),
{
    reveal_strlit(" ");
    let sp = " "@;
    assert forall|j: int| 0 <= j < sp.len() implies is_spacer(#[trigger] sp[j]) by {}
    lemma_spacers_hold_nothing(sp, p);
    let a = sp + x + spaces(n);
    assert(cell_piece(x, n) == a + sp);
    lemma_contains_split(a, sp, p);
    let c = sp + x;
    if n > 0 {
        let sn = spaces(n);
        assert forall|j: int| 0 <= j < sn.len() implies is_spacer(#[trigger] sn[j]) by {}
        lemma_spacers_hold_nothing(sn, p);
        assert(sn[0] == ' ');
        lemma_contains_split(c, sn, p);
    } else {
        assert(a =~= c);
    }
    assert(sp.last() == ' ');
    lemma_contains_split(sp, x, p);
}

proof fn lemma_bars_contains(ps: Seq<Seq<char>>, p: Seq<char>)
    requires
        solid(p),
        contains(bars(ps), p),
    ensures
        exists|k: int| 0 <= k < ps.len() && contains(#[trigger] ps[k], p),
    decreases ps.len(),
{
    reveal_strlit("|");
    let bar = "|"@;
    assert forall|j: int| 0 <= j < bar.len() implies is_spacer(#[trigger] bar[j]) by {}
    lemma_spacers_hold_nothing(bar, p);
    if ps.len() == 0 {
        lemma_spacers_hold_nothing(bars(ps), p);
    } else {
        let r = ps.drop_first();
        let a = ps[0] + bar;
        assert(bars(ps) == a + bars(r));
        assert(a.last() == '|');
        lemma_contains_split(a, bars(r), p);
        if contains(a, p) {
            lemma_contains_split(ps[0], bar, p);
            assert(contains(ps[0], p));
        } else {
            lemma_bars_contains(r, p);
            let k = choose|k: int| 0 <= k < r.len() && contains(#[trigger] r[k], p);
            assert(r[k] == ps[k + 1]);
        }
    }
}

/// A solid text that occurs in a patched line occurs in one of its cells
/// or in the new status.
proof fn lemma_patched_contains(cells: Seq<Seq<char>>, status: Seq<char>, p: Seq<char>)
    requires
        cells.len() >= 4,
        solid(p),
        contains(patched_line(cells, status), p),
    ensures
        contains(status, p) || exists|k: int| 0 <= k < cells.len() && contains(#[trigger] cells[k], p),
{
    reveal_strlit("|");
    lemma_patched_is(cells, status);
    let ps = pieces_of(cells, status);
    let bar = "|"@;
    assert forall|j: int| 0 <= j < bar.len() implies is_spacer(#[trigger] bar[j]) by {}
    lemma_spacers_hold_nothing(bar, p);
    lemma_contains_split(bar, bars(ps), p);
    lemma_bars_contains(ps, p);
    let k = choose|k: int| 0 <= k < ps.len() && contains(#[trigger] ps[k], p);
    if k == 3 {
        lemma_piece_contains(status, pad_n(status, status_width(cells, status)), p);
    } else if k < 3 {
        lemma_piece_contains(cells[k], pad_n(cells[k], crate::tasks::byte_len(cells[k]) as nat), p);
    } else {
        assert(ps[k] == cell_piece(cells[k], 0));
        lemma_piece_contains(cells[k], 0, p);
    }
}

proof fn lemma_bars_holds(ps: Seq<Seq<char>>, k: int)
    requires
        0 <= k < ps.len(),
    ensures
        contains(bars(ps), ps[k]),
    decreases ps.len(),
{
    reveal_strlit("|");
    let r = ps.drop_first();
    let b = bars(ps);
    assert(b == ps[0] + "|"@ + bars(r));
    if k == 0 {
        assert(b.subrange(0, ps[0].len() as int) =~= ps[0]);
        assert(occurs_at(b, ps[0], 0));
    } else {
        assert(r[k - 1] == ps[k]);
        lemma_bars_holds(r, k - 1);
        let off = ps[0].len() + 1;
        assert(b.subrange(off as int, b.len() as int) =~= bars(r));
        assert(occurs_at(b, bars(r), off as int));
        lemma_contains_trans(b, bars(r), ps[k]);
    }
}

/// A patched line holds its new status.
proof fn lemma_patched_holds_status(cells: Seq<Seq<char>>, status: Seq<char>)
    requires
        cells.len() >= 4,
    ensures
        contains(patched_line(cells, status), status),
{
    reveal_strlit(" ");
    reveal_strlit("|");
    lemma_patched_is(cells, status);
    let ps = pieces_of(cells, status);
    let q = ps[3];
    assert(q == cell_piece(status, pad_n(status, status_width(cells, status))));
    assert(q.subrange(1, 1 + status.len() as int) =~= status);
    assert(occurs_at(q, status, 1));
    lemma_bars_holds(ps, 3);
    lemma_contains_trans(bars(ps), q, status);
    let pl = patched_line(cells, status);
    assert(pl.subrange(1, pl.len() as int) =~= bars(ps));
    assert(occurs_at(pl, bars(ps), 1));
    lemma_contains_trans(pl, bars(ps), status);
}

proof fn lemma_contains_trans(s: Seq<char>, x: Seq<char>, p: Seq<char>)
    requires
        contains(s, x),
        contains(x, p),
    ensures
        contains(s, p),
{
    let i = choose|i: int| occurs_at(s, x, i);
    let j = choose|j: int| occurs_at(x, p, j);
    assert(occurs_at(s, x, i));
    assert(occurs_at(x, p, j));
    assert(s.subrange(i + j, i + j + p.len()) =~= x.subrange(j, j + p.len()));
    assert(occurs_at(s, p, i + j));
}

proof fn lemma_split_within(s: Seq<char>, c: char, k: int)
    requires
        0 <= k < split_on(s, c).len(),
    ensures
        contains(s, split_on(s, c)[k]),
    decreases s.len(),
{
    let k0 = find_char(s, c);
    crate::text::lemma_find_char_bounds(s, c);
    let x = split_on(s, c)[k];
    if k0 >= s.len() {
        assert(x == s);
        assert(s.subrange(0, s.len() as int) =~= s);
        assert(occurs_at(s, x, 0));
    } else {
        let rest = s.skip(k0 + 1);
        if k == 0 {
            assert(x == s.take(k0));
            assert(s.subrange(0, k0) =~= x);
            assert(occurs_at(s, x, 0));
        } else {
            assert(x == split_on(rest, c)[k - 1]);
            lemma_split_within(rest, c, k - 1);
            assert(rest.subrange(0, rest.len() as int) =~= rest);
            assert(s.subrange(k0 + 1, s.len() as int) =~= rest);
            assert(occurs_at(s, rest, k0 + 1));
            lemma_contains_trans(s, rest, x);
        }
    }
}

/// Each cell of a table line occurs in the line.
proof fn lemma_cell_within(t: Seq<char>, k: int)
    requires
        0 <= k < cells_of(t).len(),
    ensures
        contains(t, cells_of(t)[k]),
{
    let u = trim_end_matches(t, '|');
    crate::text::lemma_trim_end_matches_shape(t, '|');
    crate::text::lemma_trim_start_matches_shape(u, '|');
    let v = trim_start_matches(u, '|');
    let a = u.len() - v.len();
    assert(t.subrange(a, a + v.len()) =~= v);
    assert(occurs_at(t, v, a));
    let sp = split_on(v, '|');
    lemma_split_within(v, '|', k);
    lemma_contains_trans(t, v, sp[k]);
    lemma_trim_shape(sp[k]);
    let x = sp[k];
    let b = x.len() - crate::text::trim_start(x).len();
    assert(x.subrange(b, b + trim(x).len()) == trim(x));
    assert(occurs_at(x, trim(x), b));
    assert(cells_of(t)[k] == trim(x));
    lemma_contains_trans(t, x, trim(x));
}

proof fn lemma_cells_props(t: Seq<char>)
    ensures
        forall|k: int| 0 <= k < cells_of(t).len() ==> excl(#[trigger] cells_of(t)[k], '|') && trim(cells_of(t)[k]) == cells_of(t)[k],
        excl(t, '\n') ==> forall|k: int| 0 <= k < cells_of(t).len() ==> excl(#[trigger] cells_of(t)[k], '\n'),
{
    let tm = trim_matches(t, '|');
    let sp = split_on(tm, '|');
    lemma_split_pieces(tm, '|', '\n');
    if excl(t, '\n') {
        lemma_trim_matches_excludes(t, '|', '\n');
    }
    assert forall|k: int| 0 <= k < cells_of(t).len() implies excl(#[trigger] cells_of(t)[k], '|') && trim(cells_of(t)[k]) == cells_of(t)[k] by {
        assert(cells_of(t)[k] == trim(sp[k]));
        assert forall|i: int| 0 <= i < sp[k].len() implies sp[k][i] != '|' by {
            assert(sp[k][i] == sp[k][i]);
        }
        lemma_trim_excludes(sp[k], '|');
        lemma_trim_idempotent(sp[k]);
    }
    if excl(t, '\n') {
        assert forall|k: int| 0 <= k < cells_of(t).len() implies excl(#[trigger] cells_of(t)[k], '\n') by {
            assert(cells_of(t)[k] == trim(sp[k]));
            assert forall|i: int| 0 <= i < sp[k].len() implies sp[k][i] != '\n' by {
                assert(sp[k][i] == sp[k][i]);
            }
            lemma_trim_excludes(sp[k], '\n');
        }
    }
}

proof fn lemma_find_patch_clean(patches: Seq<(String, String)>, id: Seq<char>)
    requires
        clean_patches(patches),
    ensures
        find_patch(patches, id) matches Some(v) ==> clean_status(v),
    decreases patches.len(),
{
    if patches.len() > 0 {
        assert(clean_status(patches[0].1@));
        let rest = patches.drop_first();
        assert forall|k: int| 0 <= k < rest.len() implies clean_status(#[trigger] rest[k].1@) by {
            assert(rest[k] == patches[k + 1]);
        }
        lemma_find_patch_clean(rest, id);
    }
}

/// Reading the lines written for `ls` gives `patched_rows(ls)`.
proof fn lemma_reparse(ls: Seq<Seq<char>>, patches: Seq<(String, String)>, it: bool, ps: bool)
    requires
        clean_patches(patches),
        forall|k: int| 0 <= k < ls.len() ==> excl(#[trigger] ls[k], '\n'),
    ensures
        parse_lines(written(ls, patches, it, ps).map_values(|w: Seq<char>| strip_cr(w)), it, ps)
            == patched_rows(ls, patches, it, ps),
        forall|k: int| 0 <= k < written(ls, patches, it, ps).len() ==> excl(#[trigger] written(ls, patches, it, ps)[k], '\n'),
    decreases ls.len(),
{
    let ws = written(ls, patches, it, ps);
    let m = ws.map_values(|w: Seq<char>| strip_cr(w));
    if ls.len() == 0 {
        assert(m =~= Seq::<Seq<char>>::empty());
    } else {
        let l = ls[0];
        let rest = ls.drop_first();
        let t = trim(l);
        let (w, it2, ps2) = patch_one(l, patches, it, ps);
        assert forall|k: int| 0 <= k < rest.len() implies excl(#[trigger] rest[k], '\n') by {
            assert(rest[k] == ls[k + 1]);
        }
        lemma_reparse(rest, patches, it2, ps2);
        let wr = written(rest, patches, it2, ps2);
        assert(ws == seq![w] + wr);
        assert(m.drop_first() =~= wr.map_values(|w: Seq<char>| strip_cr(w)));
        assert(m[0] == strip_cr(w));
        assert(excl(l, '\n'));
        let cells = cells_of(t);
        let rewritten = starts_with(t, "|"@) && it && !(!ps && contains(t, "---"@)) && cells.len() >= 4
            && find_patch(patches, cells[0]) is Some;
        if rewritten {
            let st = find_patch(patches, cells[0])->0;
            lemma_find_patch_clean(patches, cells[0]);
            lemma_cells_props(t);
            lemma_trim_excludes(l, '\n');
            lemma_patched_reads_back(cells, st);
            lemma_patched_excl(cells, st, '\n');
            assert(w == patched_line(cells, st));
            assert(trim(m[0]) == w);
            let pc = patched_cells(cells, st);
            assert(cells_of(trim(m[0])) == pc);
            assert(pc[0] == cells[0]);
            assert(pc.take(4) =~= cells.take(3).push(st));
            if !ps {
                reveal_strlit("---");
                let dash = "---"@;
                assert(solid(dash));
                if contains(st, dash) {
                    lemma_patched_holds_status(cells, st);
                    lemma_contains_trans(w, st, dash);
                    assert(contains(trim(m[0]), "---"@));
                } else {
                    if contains(w, dash) {
                        lemma_patched_contains(cells, st, dash);
                        let k = choose|k: int| 0 <= k < cells.len() && contains(#[trigger] cells[k], dash);
                        lemma_cell_within(t, k);
                        lemma_contains_trans(t, cells[k], dash);
                    }
                    assert(!contains(trim(m[0]), "---"@));
                }
            }
        } else {
            assert(w == l);
            lemma_trim_strip_cr(l);
            assert(trim(m[0]) == t);
        }
        assert forall|k: int| 0 <= k < ws.len() implies excl(#[trigger] ws[k], '\n') by {
            if k > 0 {
                assert(ws[k] == wr[k - 1]);
            }
        }
    }
}

/// Reading `tasks.md` back after patching it gives one row for each row
/// read before, with the same id, title and owner, and with the status of
/// each row whose id has a patch replaced by the first patch for that id.
/// This holds for patch statuses without bars or line feeds that need no
/// trimming, except where the first row after a header without a `---`
/// line gets a status holding `---` (that row is then read as the `---`
/// line); what is read back in every case is `patched_rows`.
pub proof fn law_patched_file_reads_back(content: Seq<char>, patches: Seq<(String, String)>)
    requires
        clean_patches(patches),
    ensures
        parse_tasks(patch_tasks(content, patches)) == patched_rows(lines(content), patches, false, false),
        !hides_row(lines(content), patches, false, false) ==> rows_match(
            parse_tasks(patch_tasks(content, patches)),
            parse_tasks(content),
            patches,
        ),
{
    if !hides_row(lines(content), patches, false, false) {
        lemma_rows_correspond(lines(content), patches, false, false);
    }
    let ls = lines(content);
    lemma_lines_no_nl(content);
    assert forall|k: int| 0 <= k < ls.len() implies excl(#[trigger] ls[k], '\n') by {
        assert forall|i: int| 0 <= i < ls[k].len() implies ls[k][i] != '\n' by {
            assert(ls[k][i] == ls[k][i]);
        }
    }
    lemma_patch_is_join(ls, patches, false, false);
    lemma_reparse(ls, patches, false, false);
    lemma_lines_of_join(written(ls, patches, false, false));
}

/// Row `k` of the rows read after patching matches row `k` of those read
/// before: the same first three cells, and the first patch for its id as
/// its status where there is one, else the old status.
pub open spec fn rows_match(after: Seq<Seq<Seq<char>>>, before: Seq<Seq<Seq<char>>>, patches: Seq<(String, String)>) -> bool {
    &&& after.len() == before.len()
    &&& forall|k: int|
        0 <= k < before.len() ==> {
            let a = #[trigger] after[k];
            let b = before[k];
            &&& a.len() == 4 && b.len() == 4
            &&& a.take(3) == b.take(3)
            &&& a[3] == match find_patch(patches, b[0]) {
                Some(st) => st,
                None => b[3],
            }
        }
}

proof fn lemma_rows_match_cons(ra: Seq<Seq<char>>, rb: Seq<Seq<char>>, after: Seq<Seq<Seq<char>>>, before: Seq<Seq<Seq<char>>>, patches: Seq<(String, String)>)
    requires
        rows_match(after, before, patches),
        ra.len() == 4 && rb.len() == 4,
        ra.take(3) == rb.take(3),
        ra[3] == match find_patch(patches, rb[0]) {
            Some(st) => st,
            None => rb[3],
        },
    ensures
        rows_match(seq![ra] + after, seq![rb] + before, patches),
{
    let a2 = seq![ra] + after;
    let b2 = seq![rb] + before;
    assert forall|k: int| 0 <= k < b2.len() implies {
        let a = #[trigger] a2[k];
        let b = b2[k];
        &&& a.len() == 4 && b.len() == 4
        &&& a.take(3) == b.take(3)
        &&& a[3] == match find_patch(patches, b[0]) {
            Some(st) => st,
            None => b[3],
        }
    } by {
        if k > 0 {
            assert(a2[k] == after[k - 1]);
            assert(b2[k] == before[k - 1]);
        }
    }
}

/// Where no patch status holds `---`, no row is hidden.
proof fn lemma_no_dash_hides_nothing(ls: Seq<Seq<char>>, patches: Seq<(String, String)>, it: bool, ps: bool)
    requires
        forall|n: int| 0 <= n < patches.len() ==> !contains(#[trigger] patches[n].1@, "---"@),
    ensures
        !hides_row(ls, patches, it, ps),
    decreases ls.len(),
{
    if ls.len() > 0 {
        let t = trim(ls[0]);
        let rest = ls.drop_first();
        let cells = cells_of(t);
        if cells.len() >= 4 && find_patch(patches, cells[0]) is Some {
            lemma_find_patch_entry(patches, cells[0]);
        }
        lemma_no_dash_hides_nothing(rest, patches, true, true);
        lemma_no_dash_hides_nothing(rest, patches, true, false);
        lemma_no_dash_hides_nothing(rest, patches, false, ps);
        lemma_no_dash_hides_nothing(rest, patches, it, ps);
    }
}

proof fn lemma_rows_correspond(ls: Seq<Seq<char>>, patches: Seq<(String, String)>, it: bool, ps: bool)
    requires
        !hides_row(ls, patches, it, ps),
    ensures
        rows_match(patched_rows(ls, patches, it, ps), parse_lines(ls, it, ps), patches),
    decreases ls.len(),
{
    if ls.len() > 0 {
        let t = trim(ls[0]);
        let rest = ls.drop_first();
        let pr = patched_rows(ls, patches, it, ps);
        let pl = parse_lines(ls, it, ps);
        if !starts_with(t, "|"@) {
            if !it {
                lemma_rows_correspond(rest, patches, it, ps);
                assert(pr == patched_rows(rest, patches, it, ps));
                assert(pl == parse_lines(rest, it, ps));
            }
        } else if !it {
            if is_header(t) {
                lemma_rows_correspond(rest, patches, true, false);
                assert(pr == patched_rows(rest, patches, true, false));
                assert(pl == parse_lines(rest, true, false));
            } else {
                lemma_rows_correspond(rest, patches, false, ps);
                assert(pr == patched_rows(rest, patches, false, ps));
                assert(pl == parse_lines(rest, false, ps));
            }
        } else {
            lemma_rows_correspond(rest, patches, true, true);
            let pr2 = patched_rows(rest, patches, true, true);
            let pl2 = parse_lines(rest, true, true);
            let cells = cells_of(t);
            if !ps && contains(t, "---"@) {
                assert(pr == pr2);
                assert(pl == pl2);
            } else if cells.len() < 4 || cells[0].len() == 0 {
                assert(pr == pr2);
                assert(pl == pl2);
            } else {
                assert(pl == seq![cells.take(4)] + pl2);
                if find_patch(patches, cells[0]) is Some {
                    let ra = cells.take(3).push(find_patch(patches, cells[0])->0);
                    assert(pr == seq![ra] + pr2);
                    assert(ra.take(3) =~= cells.take(4).take(3));
                    assert(cells.take(4)[0] == cells[0]);
                    lemma_rows_match_cons(ra, cells.take(4), pr2, pl2, patches);
                } else {
                    assert(pr == seq![cells.take(4)] + pr2);
                    lemma_rows_match_cons(cells.take(4), cells.take(4), pr2, pl2, patches);
                }
            }
        }
    }
}

/// Each patch that `--sync` writes is for some task row, with the status
/// the queue's verdict on that row calls for.
proof fn lemma_wanted_entries(tasks: Seq<TaskRow>, audits: Seq<TaskAudit>, sync: bool, n: int)
    requires
        audits.len() == tasks.len(),
        0 <= n < wanted_patches(tasks, audits, sync).len(),
    ensures
        exists|j: int|
            0 <= j < tasks.len() && #[trigger] sync_status(audits[j].verdict) is Some && audits[j].drift
                && wanted_patches(tasks, audits, sync)[n] == (tasks[j].id@, sync_status(audits[j].verdict)->0),
    decreases tasks.len(),
{
    let earlier = wanted_patches(tasks.drop_last(), audits.drop_last(), sync);
    let a = audits.last();
    let last = tasks.len() - 1;
    if sync && a.drift && sync_status(a.verdict) is Some && n == earlier.len() {
        assert(sync_status(audits[last].verdict) is Some);
    } else {
        lemma_wanted_entries(tasks.drop_last(), audits.drop_last(), sync, n);
        let j = choose|j: int|
            0 <= j < tasks.drop_last().len() && #[trigger] sync_status(audits.drop_last()[j].verdict) is Some
                && audits.drop_last()[j].drift
                && earlier[n] == (tasks.drop_last()[j].id@, sync_status(audits.drop_last()[j].verdict)->0);
        assert(tasks.drop_last()[j] == tasks[j]);
        assert(audits.drop_last()[j] == audits[j]);
        assert(sync_status(audits[j].verdict) is Some);
    }
}

proof fn lemma_find_patch_entry(patches: Seq<(String, String)>, id: Seq<char>)
    requires
        find_patch(patches, id) is Some,
    ensures
        exists|j: int| 0 <= j < patches.len() && (#[trigger] patches[j]).0@ == id && patches[j].1@ == find_patch(patches, id)->0,
    decreases patches.len(),
{
    if patches[0].0@ != id {
        lemma_find_patch_entry(patches.drop_first(), id);
        let j = choose|j: int| 0 <= j < patches.drop_first().len() && (#[trigger] patches.drop_first()[j]).0@ == id
            && patches.drop_first()[j].1@ == find_patch(patches.drop_first(), id)->0;
        assert(patches[j + 1] == patches.drop_first()[j]);
    } else {
        assert(patches[0].0@ == id);
    }
}

proof fn lemma_literal_clean(s: Seq<char>)
    requires
        s.len() > 0,
        forall|i: int| 0 <= i < s.len() ==> 'a' <= #[trigger] s[i] <= 'z' || s[i] == '-',
        forall|i: int| 0 <= i < s.len() - 1 ==> #[trigger] s[i] != '-' || s[i + 1] != '-',
    ensures
        clean_status(s),
        !contains(s, "---"@),
        ascii_lowercase(s) == s,
{
    reveal_strlit("---");
    if contains(s, "---"@) {
        let i = choose|i: int| occurs_at(s, "---"@, i);
        assert(s.subrange(i, i + 3)[0] == s[i]);
        assert(s.subrange(i, i + 3)[1] == s[i + 1]);
        assert(s[i] == '-' && s[i + 1] == '-');
    }
    assert(!is_ws(s[0]) && !is_ws(s[s.len() - 1]));
    lemma_trim_range(s, 0, s.len() as int);
    assert(s.subrange(0, s.len() as int) =~= s);
    assert(ascii_lowercase(s) =~= s);
}

/// The statuses that `--sync` writes are clean, lowercase, and name the
/// verdict they are written for.
proof fn lemma_sync_status_clean(v: QueueVerdict)
    requires
        sync_status(v) is Some,
    ensures
        clean_status(sync_status(v)->0),
        !contains(sync_status(v)->0, "---"@),
        !is_drift(sync_status(v)->0, v),
{
    reveal_strlit("done");
    reveal_strlit("in-progress");
    reveal_strlit("failed");
    let s = sync_status(v)->0;
    lemma_literal_clean(s);
}

/// Every row that drifts, where the queue's verdict calls for a status,
/// has a patch written for it by `--sync`.
proof fn lemma_wanted_has(tasks: Seq<TaskRow>, audits: Seq<TaskAudit>, k: int)
    requires
        audits.len() == tasks.len(),
        0 <= k < tasks.len(),
        audits[k].drift,
        sync_status(audits[k].verdict) is Some,
    ensures
        exists|n: int|
            0 <= n < wanted_patches(tasks, audits, true).len() && #[trigger] wanted_patches(tasks, audits, true)[n]
                == (tasks[k].id@, sync_status(audits[k].verdict)->0),
    decreases tasks.len(),
{
    let w = wanted_patches(tasks, audits, true);
    let earlier = wanted_patches(tasks.drop_last(), audits.drop_last(), true);
    if k == tasks.len() - 1 {
        assert(w == earlier.push((tasks[k].id@, sync_status(audits[k].verdict)->0)));
        assert(w[earlier.len() as int] == (tasks[k].id@, sync_status(audits[k].verdict)->0));
    } else {
        assert(tasks.drop_last()[k] == tasks[k]);
        assert(audits.drop_last()[k] == audits[k]);
        lemma_wanted_has(tasks.drop_last(), audits.drop_last(), k);
        let n = choose|n: int|
            0 <= n < earlier.len() && #[trigger] earlier[n] == (tasks[k].id@, sync_status(audits[k].verdict)->0);
        assert(w[n] == earlier[n]);
    }
}

proof fn lemma_find_patch_some(patches: Seq<(String, String)>, id: Seq<char>, n: int)
    requires
        0 <= n < patches.len(),
        patches[n].0@ == id,
    ensures
        find_patch(patches, id) is Some,
    decreases patches.len(),
{
    if n > 0 && patches[0].0@ != id {
        assert(patches.drop_first()[n - 1] == patches[n]);
        lemma_find_patch_some(patches.drop_first(), id, n - 1);
    }
}

/// After `--sync`, reading `tasks.md` back gives one row for each row read
/// before, with the same id, title and owner. Every row that drifted, where
/// the queue's verdict on its task calls for a status (done, in progress or
/// failed), now carries that status and shows no drift. Any other row
/// keeps its status, unless another row of the same task drifted, in which
/// case it too carries the status the queue calls for and shows no drift.
pub proof fn law_sync_fixes_drift(
    content: Seq<char>,
    items: Seq<QueueItem>,
    tasks: Seq<TaskRow>,
    audits: Seq<TaskAudit>,
    drift_count: nat,
    patches: Seq<(String, String)>,
    k: int,
)
    requires
        tasks.map_values(|r: TaskRow| r.cells()) == parse_tasks(content),
        audit_spec(tasks, items, true, audits, drift_count, patches),
        0 <= k < tasks.len(),
    ensures
        parse_tasks(patch_tasks(content, patches)).len() == tasks.len(),
        parse_tasks(patch_tasks(content, patches))[k].take(3) == tasks[k].cells().take(3),
        audits[k].drift && sync_status(audits[k].verdict) is Some ==> {
            &&& parse_tasks(patch_tasks(content, patches))[k][3] == sync_status(audits[k].verdict)->0
            &&& !is_drift(parse_tasks(patch_tasks(content, patches))[k][3], audits[k].verdict)
        },
        parse_tasks(patch_tasks(content, patches))[k][3] == tasks[k].md_status@ || {
            let v = verdict_of(items, tasks[k].id@);
            &&& parse_tasks(patch_tasks(content, patches))[k][3] == sync_status(v)->0
            &&& !is_drift(parse_tasks(patch_tasks(content, patches))[k][3], v)
        },
        parse_tasks(patch_tasks(content, patches))[k][3] != tasks[k].md_status@ ==> exists|j: int|
            0 <= j < tasks.len() && (#[trigger] tasks[j]).id@ == tasks[k].id@ && audits[j].drift
                && sync_status(audits[j].verdict) is Some,
{
    let views = patches.map_values(|p: (String, String)| (p.0@, p.1@));
    assert forall|n: int| 0 <= n < patches.len() implies clean_status(#[trigger] patches[n].1@) by {
        assert(views[n] == (patches[n].0@, patches[n].1@));
        lemma_wanted_entries(tasks, audits, true, n);
        let j = choose|j: int|
            0 <= j < tasks.len() && #[trigger] sync_status(audits[j].verdict) is Some && audits[j].drift
                && wanted_patches(tasks, audits, true)[n] == (tasks[j].id@, sync_status(audits[j].verdict)->0);
        lemma_sync_status_clean(audits[j].verdict);
    }
    assert forall|n: int| 0 <= n < patches.len() implies !contains(#[trigger] patches[n].1@, "---"@) by {
        assert(views[n] == (patches[n].0@, patches[n].1@));
        lemma_wanted_entries(tasks, audits, true, n);
        let j = choose|j: int|
            0 <= j < tasks.len() && #[trigger] sync_status(audits[j].verdict) is Some && audits[j].drift
                && wanted_patches(tasks, audits, true)[n] == (tasks[j].id@, sync_status(audits[j].verdict)->0);
        lemma_sync_status_clean(audits[j].verdict);
    }
    let ls = lines(content);
    lemma_no_dash_hides_nothing(ls, patches, false, false);
    law_patched_file_reads_back(content, patches);
    lemma_rows_correspond(ls, patches, false, false);
    assert(rows_match(parse_tasks(patch_tasks(content, patches)), parse_tasks(content), patches));
    let before = parse_tasks(content);
    let after = parse_tasks(patch_tasks(content, patches));
    assert(before[k] == tasks[k].cells());
    assert(tasks[k].cells()[0] == tasks[k].id@);
    assert(tasks[k].cells()[3] == tasks[k].md_status@);
    let id = tasks[k].id@;
    assert(audits[k].verdict == verdict_of(items, id));
    if audits[k].drift && sync_status(audits[k].verdict) is Some {
        lemma_wanted_has(tasks, audits, k);
        let n0 = choose|n: int|
            0 <= n < wanted_patches(tasks, audits, true).len() && #[trigger] wanted_patches(tasks, audits, true)[n]
                == (tasks[k].id@, sync_status(audits[k].verdict)->0);
        assert(views[n0] == (patches[n0].0@, patches[n0].1@));
        lemma_find_patch_some(patches, id, n0);
    }
    if find_patch(patches, id) is Some {
        lemma_find_patch_entry(patches, id);
        let n = choose|n: int| 0 <= n < patches.len() && (#[trigger] patches[n]).0@ == id && patches[n].1@ == find_patch(patches, id)->0;
        assert(views[n] == (patches[n].0@, patches[n].1@));
        lemma_wanted_entries(tasks, audits, true, n);
        let j = choose|j: int|
            0 <= j < tasks.len() && #[trigger] sync_status(audits[j].verdict) is Some && audits[j].drift
                && wanted_patches(tasks, audits, true)[n] == (tasks[j].id@, sync_status(audits[j].verdict)->0);
        let a = audits[j];
        assert(a.verdict == verdict_of(items, tasks[j].id@));
        assert(tasks[j].id@ == id);
        lemma_sync_status_clean(a.verdict);
        assert(after[k][3] == sync_status(audits[k].verdict)->0);
    }
}

/// The lines of `line`, a line feed and `rest`: `line` (less a carriage
/// return at its end), then the lines of `rest`.
proof fn lemma_first_line(line: Seq<char>, rest: Seq<char>)
    requires
        excl(line, '\n'),
    ensures
        lines(line + "\n"@ + rest) == seq![strip_cr(line)] + lines(rest),
{
    reveal_strlit("\n");
    let s = line + "\n"@ + rest;
    assert forall|i: int| 0 <= i < line.len() implies #[trigger] s[i] != '\n' by {
        assert(s[i] == line[i]);
    }
    assert(s[line.len() as int] == '\n');
    lemma_find_char(s, '\n', line.len() as int);
    assert(s.take(line.len() as int) =~= line);
    assert(s.skip(line.len() as int + 1) =~= rest);
}

/// A prefix that starts with a character other than whitespace, followed
/// by a value that is not empty and needs no trimming, needs no trimming
/// and ends with no carriage return; its parts split again at the
/// prefix's length.
proof fn lemma_field_line(pre: Seq<char>, v: Seq<char>)
    requires
        pre.len() > 0,
        !is_ws(pre[0]),
        v.len() > 0,
        trim(v) == v,
    ensures
        trim(pre + v) == pre + v,
        strip_cr(pre + v) == pre + v,
        (pre + v).skip(pre.len() as int) == v,
        (pre + v).take(pre.len() as int) == pre,
{
    let line = pre + v;
    assert(line.skip(pre.len() as int) =~= v);
    assert(line.take(pre.len() as int) =~= pre);
    lemma_trim_shape(v);
    assert(line[0] == pre[0]);
    assert(line.last() == v.last());
    assert(is_ws('\r'));
    lemma_trim_whole(line);
}

/// A text whose ends are not whitespace needs no trimming.
proof fn lemma_trim_whole(line: Seq<char>)
    requires
        line.len() > 0,
        !is_ws(line[0]),
        !is_ws(line.last()),
    ensures
        trim(line) == line,
{
    lemma_trim_range(line, 0, line.len() as int);
    assert(line.subrange(0, line.len() as int) =~= line);
}

/// The context that a hand-off with a project and a task id writes holds
/// `project: <p>` and `task_id: <t>` as substrings, and `task_id: <t>` as a
/// line of its own, where neither holds a line feed and the task id is not
/// empty and needs no trimming.
pub proof fn law_handoff_context_names_task(p: Seq<char>, t: Seq<char>, extra: Option<Seq<char>>)
    requires
        excl(p, '\n'),
        excl(t, '\n'),
        t.len() > 0,
        trim(t) == t,
    ensures
        context_for(Some(p), Some(t), extra) matches Some(c) && contains(c, "project: "@ + p)
            && contains(c, "task_id: "@ + t) && has_line(c, "task_id: "@ + t),
{
    reveal_strlit("project: ");
    reveal_strlit("task_id: ");
    reveal_strlit("\n");
    let pl = "project: "@ + p;
    let tl = "task_id: "@ + t;
    let tail = match extra {
        Some(x) => "\n"@ + x,
        None => Seq::<char>::empty(),
    };
    let c = context_for(Some(p), Some(t), extra)->0;
    assert(c =~= pl + "\n"@ + (tl + "\n"@ + tail));
    assert(c.subrange(0, pl.len() as int) =~= pl);
    assert(occurs_at(c, pl, 0));
    let off: int = pl.len() as int + 1;
    assert(c.subrange(off, off + tl.len() as int) =~= tl);
    assert(occurs_at(c, tl, off));
    assert(excl("project: "@, '\n'));
    assert(excl("task_id: "@, '\n'));
    lemma_excl_concat("project: "@, p, '\n');
    lemma_excl_concat("task_id: "@, t, '\n');
    lemma_first_line(pl, tl + "\n"@ + tail);
    lemma_first_line(tl, tail);
    lemma_field_line("task_id: "@, t);
    assert(lines(c)[1] == tl);
    assert(trim(lines(c)[1]) == tl);
}

/// An item that the `queue_enqueue` tool queues with a project and a task
/// id is found by the project query for that task, and counts as an item
/// of that task when `tasks.md` is held against the queue.
pub proof fn law_handoff_is_found(
    item: QueueItem,
    id: String,
    agent: Seq<char>,
    req: EnqueueRequest,
    args: EnqueueArgs,
    now: int,
    p: Seq<char>,
    t: Seq<char>,
)
    requires
        request_for(req, args),
        is_new_item(item, id, agent, req, now),
        given(args.project) == Some(p),
        given(args.task_id) == Some(t),
        excl(p, '\n'),
        excl(t, '\n'),
        trim(t) == t,
    ensures
        project_keeps(item, p, Some(t)),
        is_for_task(item, t),
{
    law_handoff_context_names_task(p, t, given(args.context));
}

/// An item that the `queue_enqueue` tool queues with a project and a task
/// id, neither holding a line feed or needing trimming, is drained with a
/// task guard that names that task in that project: its context part is
/// the context, a line feed, and the guard.
pub proof fn law_handoff_prompt_guards_task(
    item: QueueItem,
    id: String,
    agent: Seq<char>,
    req: EnqueueRequest,
    args: EnqueueArgs,
    now: int,
    p: Seq<char>,
    t: Seq<char>,
)
    requires
        request_for(req, args),
        is_new_item(item, id, agent, req, now),
        given(args.project) == Some(p),
        given(args.task_id) == Some(t),
        excl(p, '\n'),
        excl(t, '\n'),
        trim(p) == p,
        trim(t) == t,
    ensures
        item.context matches Some(c) && context_field(c@, "task_id: "@) == Some(t)
            && context_field(c@, "project: "@) == Some(p)
            && context_part(c@, item.id@) == "\nContext:\n"@ + c@ + "\n"@ + task_guard(t, p, item.id@),
{
    reveal_strlit("project: ");
    reveal_strlit("task_id: ");
    reveal_strlit("\n");
    let pl = "project: "@ + p;
    let tl = "task_id: "@ + t;
    let extra = given(args.context);
    let tail = match extra {
        Some(x) => "\n"@ + x,
        None => Seq::<char>::empty(),
    };
    let c = context_for(Some(p), Some(t), extra)->0;
    assert(c =~= pl + "\n"@ + (tl + "\n"@ + tail));
    assert(excl("project: "@, '\n'));
    assert(excl("task_id: "@, '\n'));
    lemma_excl_concat("project: "@, p, '\n');
    lemma_excl_concat("task_id: "@, t, '\n');
    lemma_first_line(pl, tl + "\n"@ + tail);
    lemma_first_line(tl, tail);
    lemma_field_line("project: "@, p);
    lemma_field_line("task_id: "@, t);
    let ls = lines(c);
    assert(ls[0] == pl);
    assert(ls[1] == tl);
    assert(ls.drop_first()[0] == tl);
    assert(!starts_with(trim(ls[0]), "task_id: "@)) by {
        assert(pl.take(9)[0] == 'p');
        assert("task_id: "@[0] == 't');
    }
    assert(starts_with(trim(ls[0]), "project: "@));
    assert(starts_with(trim(ls.drop_first()[0]), "task_id: "@));
    assert(context_field(c, "project: "@) == Some(p));
    assert(field_in(ls, "task_id: "@) == field_in(ls.drop_first(), "task_id: "@));
    assert(field_in(ls.drop_first(), "task_id: "@) == Some(trim(tl.skip(9))));
    assert(context_field(c, "task_id: "@) == Some(t));
}

proof fn lemma_count_marked_pos(keep: Seq<bool>, k: int)
    requires
        0 <= k < keep.len(),
        keep[k],
    ensures
        count_marked(keep) >= 1,
    decreases keep.len(),
{
    if k < keep.len() - 1 {
        assert(keep.drop_last()[k] == keep[k]);
        lemma_count_marked_pos(keep.drop_last(), k);
    }
}

/// An item that the `queue_enqueue` tool queues with a project and a task
/// id stays findable: in any later table that holds it with its context
/// unchanged, the project query and the project-and-task query both list
/// it, and among the items of the project at least one is for the task, so
/// `task status` shows the task as queued (in progress, done or failed).
pub proof fn law_handoff_found_later(
    item: QueueItem,
    id: String,
    agent: Seq<char>,
    req: EnqueueRequest,
    args: EnqueueArgs,
    now: int,
    p: Seq<char>,
    t: Seq<char>,
    rows: Seq<QueueItem>,
    i: int,
    all: Seq<usize>,
    with_task: Seq<usize>,
)
    requires
        request_for(req, args),
        is_new_item(item, id, agent, req, now),
        given(args.project) == Some(p),
        given(args.task_id) == Some(t),
        excl(p, '\n'),
        excl(t, '\n'),
        trim(t) == t,
        0 <= i < rows.len(),
        rows[i].context == item.context,
        is_listing(rows, rows.map_values(|x: QueueItem| project_keeps(x, p, None)), ListOrder::NewestFirst, all),
        is_listing(rows, rows.map_values(|x: QueueItem| project_keeps(x, p, Some(t))), ListOrder::NewestFirst, with_task),
    ensures
        all.contains(i as usize),
        with_task.contains(i as usize),
        count_marked(listed(rows, all).map_values(|x: QueueItem| is_for_task(x, t))) >= 1,
        verdict_of(listed(rows, all), t) != QueueVerdict::NotQueued,
{
    law_handoff_is_found(item, id, agent, req, args, now, p, t);
    assert(rows[i].context_text() == item.context_text());
    assert(project_keeps(rows[i], p, None));
    assert(project_keeps(rows[i], p, Some(t)));
    assert(rows.map_values(|x: QueueItem| project_keeps(x, p, None))[i]);
    assert(rows.map_values(|x: QueueItem| project_keeps(x, p, Some(t)))[i]);
    let k = choose|k: int| 0 <= k < all.len() && all[k] == i as usize;
    let l = listed(rows, all);
    assert(l[k] == rows[i]);
    assert(is_for_task(rows[i], t));
    let marks = l.map_values(|x: QueueItem| is_for_task(x, t));
    assert(marks[k]);
    lemma_count_marked_pos(marks, k);
    assert(is_for_task(l[k], t));
}

proof fn lemma_count_concat(x: Seq<bool>, y: Seq<bool>)
    ensures
        count_marked(x + y) == count_marked(x) + count_marked(y),
    decreases y.len(),
{
    if y.len() == 0 {
        assert(x + y =~= x);
    } else {
        lemma_count_concat(x, y.drop_last());
        assert((x + y).drop_last() =~= x + y.drop_last());
        assert((x + y).last() == y.last());
    }
}

proof fn lemma_count_remove(keep: Seq<bool>, j: int)
    requires
        0 <= j < keep.len(),
    ensures
        count_marked(keep) == count_marked(keep.remove(j)) + if keep[j] {
            1nat
        } else {
            0nat
        },
{
    let a = keep.take(j);
    let b = keep.skip(j + 1);
    assert(keep =~= a + seq![keep[j]] + b);
    assert(keep.remove(j) =~= a + b);
    lemma_count_concat(a + seq![keep[j]], b);
    lemma_count_concat(a, seq![keep[j]]);
    lemma_count_concat(a, b);
    assert(seq![keep[j]].drop_last() =~= Seq::<bool>::empty());
    assert(count_marked(Seq::<bool>::empty()) == 0);
    assert(seq![keep[j]].last() == keep[j]);
    assert(count_marked(seq![keep[j]]) == if keep[j] {
        1nat
    } else {
        0nat
    });
}

/// How many of `items` are for task `t`.
pub open spec fn task_count(items: Seq<QueueItem>, t: Seq<char>) -> nat {
    count_marked(items.map_values(|x: QueueItem| is_for_task(x, t)))
}

proof fn lemma_task_count_perm(a: Seq<QueueItem>, b: Seq<QueueItem>, t: Seq<char>)
    requires
        a.to_multiset() == b.to_multiset(),
    ensures
        task_count(a, t) == task_count(b, t),
    decreases a.len(),
{
    broadcast use vstd::seq_lib::group_to_multiset_ensures;
    broadcast use vstd::multiset::group_multiset_axioms;
    let m = |x: QueueItem| is_for_task(x, t);
    if a.len() == 0 {
        assert(b.len() == b.to_multiset().len());
        assert(b.map_values(m) =~= Seq::<bool>::empty());
        assert(a.map_values(m) =~= Seq::<bool>::empty());
    } else {
        let x = a.last();
        let a0 = a.drop_last();
        assert(a0.push(x) =~= a);
        assert(a.to_multiset() =~= a0.to_multiset().insert(x));
        assert(a.to_multiset().count(x) > 0);
        assert(b.to_multiset().count(x) > 0);
        assert(b.contains(x));
        let j = choose|j: int| 0 <= j < b.len() && b[j] == x;
        let b0 = b.remove(j);
        assert(b0.to_multiset() == b.to_multiset().remove(x));
        assert(b0.to_multiset() =~= a0.to_multiset());
        lemma_task_count_perm(a0, b0, t);
        assert(a.map_values(m).drop_last() =~= a0.map_values(m));
        assert(b0.map_values(m) =~= b.map_values(m).remove(j));
        lemma_count_remove(b.map_values(m), j);
    }
}

proof fn lemma_count_zero_iff(keep: Seq<bool>)
    ensures
        count_marked(keep) == 0 <==> forall|i: int| 0 <= i < keep.len() ==> !keep[i],
    decreases keep.len(),
{
    if keep.len() > 0 {
        lemma_count_zero_iff(keep.drop_last());
        assert forall|i: int| 0 <= i < keep.len() - 1 implies keep.drop_last()[i] == keep[i] by {}
    }
}

/// The queue's verdict on a task, and its count of items for the task, do
/// not depend on the order of the items, nor on items for other tasks:
/// any reordering of the items, with any items added that are not for the
/// task, gives the same verdict and the same count.
pub proof fn law_verdict_ignores_order_and_other_tasks(
    items: Seq<QueueItem>,
    extra: Seq<QueueItem>,
    items2: Seq<QueueItem>,
    t: Seq<char>,
)
    requires
        items2.to_multiset() == (items + extra).to_multiset(),
        forall|k: int| 0 <= k < extra.len() ==> !is_for_task(#[trigger] extra[k], t),
    ensures
        verdict_of(items2, t) == verdict_of(items, t),
        task_count(items2, t) == task_count(items, t),
{
    broadcast use vstd::seq_lib::group_to_multiset_ensures;
    let m = |x: QueueItem| is_for_task(x, t);
    let all = items + extra;
    lemma_task_count_perm(items2, all, t);
    assert(all.map_values(m) =~= items.map_values(m) + extra.map_values(m));
    lemma_count_concat(items.map_values(m), extra.map_values(m));
    lemma_count_zero_iff(extra.map_values(m));
    assert forall|i: int| 0 <= i < extra.map_values(m).len() implies !extra.map_values(m)[i] by {}
    // the matching elements of `items2` are those of `items`
    assert forall|x: QueueItem| m(x) implies (items2.contains(x) <==> items.contains(x)) by {
        assert(items2.contains(x) <==> items2.to_multiset().count(x) > 0);
        assert(all.contains(x) <==> all.to_multiset().count(x) > 0);
        if all.contains(x) {
            let i = choose|i: int| 0 <= i < all.len() && all[i] == x;
            if i >= items.len() {
                assert(all[i] == extra[i - items.len()]);
            } else {
                assert(all[i] == items[i]);
            }
        }
        if items.contains(x) {
            let i = choose|i: int| 0 <= i < items.len() && items[i] == x;
            assert(all[i] == items[i]);
        }
    }
    assert((exists|i: int| 0 <= i < items2.len() && m(#[trigger] items2[i]) && is_active(items2[i].status))
        <==> (exists|i: int| 0 <= i < items.len() && m(#[trigger] items[i]) && is_active(items[i].status))) by {
        if exists|i: int| 0 <= i < items2.len() && m(#[trigger] items2[i]) && is_active(items2[i].status) {
            let i = choose|i: int| 0 <= i < items2.len() && m(#[trigger] items2[i]) && is_active(items2[i].status);
            assert(items2.contains(items2[i]));
            let j = choose|j: int| 0 <= j < items.len() && items[j] == items2[i];
        }
        if exists|i: int| 0 <= i < items.len() && m(#[trigger] items[i]) && is_active(items[i].status) {
            let i = choose|i: int| 0 <= i < items.len() && m(#[trigger] items[i]) && is_active(items[i].status);
            assert(items.contains(items[i]));
            let j = choose|j: int| 0 <= j < items2.len() && items2[j] == items[i];
        }
    }
    assert((exists|i: int| 0 <= i < items2.len() && m(#[trigger] items2[i]) && items2[i].status == QueueStatus::Failed)
        <==> (exists|i: int| 0 <= i < items.len() && m(#[trigger] items[i]) && items[i].status == QueueStatus::Failed)) by {
        if exists|i: int| 0 <= i < items2.len() && m(#[trigger] items2[i]) && items2[i].status == QueueStatus::Failed {
            let i = choose|i: int| 0 <= i < items2.len() && m(#[trigger] items2[i]) && items2[i].status == QueueStatus::Failed;
            assert(items2.contains(items2[i]));
            let j = choose|j: int| 0 <= j < items.len() && items[j] == items2[i];
        }
        if exists|i: int| 0 <= i < items.len() && m(#[trigger] items[i]) && items[i].status == QueueStatus::Failed {
            let i = choose|i: int| 0 <= i < items.len() && m(#[trigger] items[i]) && items[i].status == QueueStatus::Failed;
            assert(items.contains(items[i]));
            let j = choose|j: int| 0 <= j < items2.len() && items2[j] == items[i];
        }
    }
    assert((forall|i: int| 0 <= i < items2.len() && m(#[trigger] items2[i]) ==> items2[i].status == QueueStatus::Done)
        <==> (forall|i: int| 0 <= i < items.len() && m(#[trigger] items[i]) ==> items[i].status == QueueStatus::Done)) by {
        if forall|i: int| 0 <= i < items2.len() && m(#[trigger] items2[i]) ==> items2[i].status == QueueStatus::Done {
            assert forall|i: int| 0 <= i < items.len() && m(#[trigger] items[i]) implies items[i].status == QueueStatus::Done by {
                assert(items.contains(items[i]));
                let j = choose|j: int| 0 <= j < items2.len() && items2[j] == items[i];
            }
        }
        if forall|i: int| 0 <= i < items.len() && m(#[trigger] items[i]) ==> items[i].status == QueueStatus::Done {
            assert forall|i: int| 0 <= i < items2.len() && m(#[trigger] items2[i]) implies items2[i].status == QueueStatus::Done by {
                assert(items2.contains(items2[i]));
                let j = choose|j: int| 0 <= j < items.len() && items[j] == items2[i];
            }
        }
    }
}


/// Some item of `items` is for task `t` and has status `st`.
pub open spec fn has_item_with(items: Seq<QueueItem>, t: Seq<char>, st: QueueStatus) -> bool {
    exists|i: int| 0 <= i < items.len() && is_for_task(#[trigger] items[i], t) && items[i].status == st
}

/// The queue's verdict on a task, from the statuses of the items for it: in
/// progress where any is pending or processing (or of an unrecognized
/// status, which shows as pending), whatever others failed; otherwise
/// failed where any failed; otherwise done where there is any (all of them
/// are then done); not queued, with a count of none, where there is none.
pub proof fn law_verdict_by_statuses(items: Seq<QueueItem>, t: Seq<char>)
    ensures
        has_item_with(items, t, QueueStatus::Pending) || has_item_with(items, t, QueueStatus::Processing)
            || has_item_with(items, t, QueueStatus::Unrecognized) ==> verdict_of(items, t) == QueueVerdict::InProgress,
        !has_item_with(items, t, QueueStatus::Pending) && !has_item_with(items, t, QueueStatus::Processing)
            && !has_item_with(items, t, QueueStatus::Unrecognized) && has_item_with(items, t, QueueStatus::Failed)
            ==> verdict_of(items, t) == QueueVerdict::Failed,
        !has_item_with(items, t, QueueStatus::Pending) && !has_item_with(items, t, QueueStatus::Processing)
            && !has_item_with(items, t, QueueStatus::Unrecognized) && !has_item_with(items, t, QueueStatus::Failed)
            && (exists|i: int| 0 <= i < items.len() && is_for_task(#[trigger] items[i], t))
            ==> verdict_of(items, t) == QueueVerdict::Done,
        !(exists|i: int| 0 <= i < items.len() && is_for_task(#[trigger] items[i], t)) ==> {
            &&& verdict_of(items, t) == QueueVerdict::NotQueued
            &&& task_count(items, t) == 0
        },
        (exists|i: int| 0 <= i < items.len() && is_for_task(#[trigger] items[i], t)) ==> task_count(items, t) > 0,
{
    let m = |x: QueueItem| is_for_task(x, t);
    let marks = items.map_values(m);
    lemma_count_zero_iff(marks);
    if exists|i: int| 0 <= i < items.len() && is_for_task(#[trigger] items[i], t) {
        let i = choose|i: int| 0 <= i < items.len() && is_for_task(#[trigger] items[i], t);
        assert(marks[i]);
        if has_item_with(items, t, QueueStatus::Pending) || has_item_with(items, t, QueueStatus::Processing)
            || has_item_with(items, t, QueueStatus::Unrecognized) {
            let j = if has_item_with(items, t, QueueStatus::Pending) {
                choose|j: int| 0 <= j < items.len() && is_for_task(#[trigger] items[j], t) && items[j].status == QueueStatus::Pending
            } else if has_item_with(items, t, QueueStatus::Processing) {
                choose|j: int| 0 <= j < items.len() && is_for_task(#[trigger] items[j], t) && items[j].status == QueueStatus::Processing
            } else {
                choose|j: int| 0 <= j < items.len() && is_for_task(#[trigger] items[j], t) && items[j].status == QueueStatus::Unrecognized
            };
            assert(m(items[j]) && is_active(items[j].status));
        } else {
            assert forall|j: int| 0 <= j < items.len() && m(#[trigger] items[j]) implies !is_active(items[j].status) by {
                if items[j].status == QueueStatus::Pending {
                    assert(has_item_with(items, t, QueueStatus::Pending));
                }
                if items[j].status == QueueStatus::Processing {
                    assert(has_item_with(items, t, QueueStatus::Processing));
                }
                if items[j].status == QueueStatus::Unrecognized {
                    assert(has_item_with(items, t, QueueStatus::Unrecognized));
                }
            }
            if has_item_with(items, t, QueueStatus::Failed) {
                let j = choose|j: int| 0 <= j < items.len() && is_for_task(#[trigger] items[j], t) && items[j].status == QueueStatus::Failed;
                assert(m(items[j]));
            } else {
                assert forall|j: int| 0 <= j < items.len() && m(#[trigger] items[j]) implies items[j].status == QueueStatus::Done by {
                    if items[j].status == QueueStatus::Failed {
                        assert(has_item_with(items, t, QueueStatus::Failed));
                    }
                    assert(!is_active(items[j].status));
                }
            }
        }
    } else {
        assert forall|i: int| 0 <= i < marks.len() implies !marks[i] by {}
    }
}

/// A file status agrees with the queue exactly when, lowercased, it is the
/// word for the verdict (the one below for each verdict). Any other status
/// drifts, and so does the word for another verdict.
pub proof fn law_drift_unless_status_names_verdict(md_status: Seq<char>, v: QueueVerdict)
    ensures
        !is_drift(md_status, v) <==> ascii_lowercase(md_status) == match v {
            QueueVerdict::Done => "done"@,
            QueueVerdict::InProgress => "in-progress"@,
            QueueVerdict::NotQueued => "todo"@,
            QueueVerdict::Failed => "failed"@,
        },
{
}

/// The context a hand-off writes starts with `project: <p>` and a line feed
/// wherever a project is given, whether or not a task id is; holds
/// `task_id: <t>` and a line feed wherever a task id is given; ends with
/// the caller's context wherever one is given; and is absent only where
/// nothing is given.
pub proof fn law_context_layout(p: Option<Seq<char>>, t: Option<Seq<char>>, e: Option<Seq<char>>)
    ensures
        p matches Some(pp) ==> context_for(p, t, e) matches Some(c) && starts_with(c, "project: "@ + pp + "\n"@)
            && contains(c, "project: "@ + pp),
        t matches Some(tt) ==> context_for(p, t, e) matches Some(c) && contains(c, "task_id: "@ + tt + "\n"@),
        e matches Some(x) ==> (x.len() > 0 ==> (context_for(p, t, e) matches Some(c) && c.len() >= x.len()
            && c.skip(c.len() - x.len()) == x)),
        p is None && t is None && (e is None || e->0.len() == 0) ==> context_for(p, t, e) is None,
        (p is Some || t is Some) ==> (e matches Some(x) ==> (context_for(p, t, e) matches Some(c) && c.len()
            >= x.len() + 2 && c.subrange(c.len() - x.len() - 2, c.len() - x.len()) == "\n\n"@)),
        p is None && t is None ==> (e matches Some(x) ==> (x.len() > 0 ==> context_for(p, t, e) == Some(x))),
{
    reveal_strlit("project: ");
    reveal_strlit("task_id: ");
    reveal_strlit("\n\n");
    reveal_strlit("\n");
    let ph = match p {
        Some(pp) => "project: "@ + pp + "\n"@,
        None => Seq::<char>::empty(),
    };
    let th = match t {
        Some(tt) => "task_id: "@ + tt + "\n"@,
        None => Seq::<char>::empty(),
    };
    let head = ph + th;
    let all = match e {
        Some(c) => if head.len() > 0 {
            head + "\n"@ + c
        } else {
            c
        },
        None => head,
    };
    assert(context_for(p, t, e) == if all.len() == 0 { None::<Seq<char>> } else { Some(all) });
    if let Some(pp) = p {
        let pl = "project: "@ + pp + "\n"@;
        assert(all.take(pl.len() as int) =~= pl);
        assert(all.subrange(0, pp.len() as int + 9) =~= "project: "@ + pp);
        assert(occurs_at(all, "project: "@ + pp, 0));
    }
    if let Some(tt) = t {
        let tl = "task_id: "@ + tt + "\n"@;
        assert(all.subrange(ph.len() as int, ph.len() as int + tl.len() as int) =~= tl);
        assert(occurs_at(all, tl, ph.len() as int));
    }
    if let Some(x) = e {
        if x.len() > 0 {
            assert(all.skip(all.len() - x.len()) =~= x);
        }
        if p is Some || t is Some {
            assert(head.len() > 0);
            if th.len() > 0 {
                assert(th.last() == '\n');
                assert(head.last() == th.last());
            } else {
                assert(ph.last() == '\n');
                assert(head =~= ph);
            }
            assert(head.last() == '\n');
            assert(all == head + "\n"@ + x);
            let n = all.len();
            assert(all[n - x.len() - 2] == head[head.len() - 1]);
            assert(all[n - x.len() - 1] == '\n');
            assert(all.subrange(all.len() - x.len() - 2, all.len() - x.len()) =~= "\n\n"@);
        }
    }
}

/// An item that the `queue_enqueue` tool queues with a project is found by
/// the project query, with or without a task id.
pub proof fn law_handoff_project_found(
    item: QueueItem,
    id: String,
    agent: Seq<char>,
    req: EnqueueRequest,
    args: EnqueueArgs,
    now: int,
    p: Seq<char>,
)
    requires
        request_for(req, args),
        is_new_item(item, id, agent, req, now),
        given(args.project) == Some(p),
    ensures
        project_keeps(item, p, None),
{
    law_context_layout(given(args.project), given(args.task_id), given(args.context));
}


/// The count of items for a task: none in an empty queue, and one more
/// with each added item that is for the task.
pub proof fn law_task_count_counts(items: Seq<QueueItem>, x: QueueItem, t: Seq<char>)
    ensures
        task_count(Seq::<QueueItem>::empty(), t) == 0,
        task_count(items.push(x), t) == task_count(items, t) + if is_for_task(x, t) {
            1nat
        } else {
            0nat
        },
{
    let m = |y: QueueItem| is_for_task(y, t);
    assert(Seq::<QueueItem>::empty().map_values(m) =~= Seq::<bool>::empty());
    assert(items.push(x).map_values(m).drop_last() =~= items.map_values(m));
    assert(items.push(x).map_values(m).last() == m(x));
}

} // verus!
