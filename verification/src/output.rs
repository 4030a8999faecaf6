//! The table of matching environments.
use vstd::prelude::*;

use crate::model::{manager_name, manager_rank, Candidate, CandidateView, ProbeResult};
use crate::probe::{match_text, render_match};
use crate::text::{
    chars_of, concat, lemma_seq_lt_total, lemma_seq_lt_transitive, lit, seq_eq, seq_lt, seq_lt_exec, string_of,
    to_ascii_lowercase, to_ascii_lowercase_exec,
};

verus! {

/// A row of the table: the candidate and its MATCH text.
pub type Row = (CandidateView, Seq<char>);

/// The rows of the matches that have a MATCH text, in the order given.
pub open spec fn table_rows(matches: Seq<(Candidate, ProbeResult)>) -> Seq<Row> {
    matches.filter_map(
        |p: (Candidate, ProbeResult)|
            match match_text(p.1) {
                Some(t) => Some((p.0@, t)),
                None => None,
            },
    )
}

/// The order of the table: by manager rank, then by environment path with
/// ASCII case folded, then by interpreter path.
pub open spec fn row_lt(a: Row, b: Row) -> bool {
    let (ra, rb) = (manager_rank(a.0.manager), manager_rank(b.0.manager));
    let (ea, eb) = (to_ascii_lowercase(a.0.env_path), to_ascii_lowercase(b.0.env_path));
    ||| ra < rb
    ||| ra == rb && seq_lt(ea, eb)
    ||| ra == rb && ea == eb && seq_lt(a.0.python_path, b.0.python_path)
}

/// `x` placed after every row it does not come before.
pub open spec fn insert_row(sorted: Seq<Row>, x: Row) -> Seq<Row>
    decreases sorted.len(),
{
    if sorted.len() == 0 {
        seq![x]
    } else if row_lt(x, sorted[0]) {
        seq![x] + sorted
    } else {
        seq![sorted[0]] + insert_row(sorted.drop_first(), x)
    }
}

/// The rows in table order; rows that compare equal keep their order.
pub open spec fn sort_rows(rows: Seq<Row>) -> Seq<Row>
    decreases rows.len(),
{
    if rows.len() == 0 {
        seq![]
    } else {
        insert_row(sort_rows(rows.drop_last()), rows.last())
    }
}

/// The byte length of a text (`str::len`).
pub open spec fn str_len(s: Seq<char>) -> usize {
    vstd::utf8::encode_utf8(s).len() as usize
}

pub open spec fn header_cells() -> Seq<Seq<char>> {
    seq!["MANAGER"@, "ENV"@, "PYTHON"@, "MATCH"@]
}

/// The four cells of a row.
pub open spec fn row_cells(r: Row) -> Seq<Seq<char>> {
    seq![manager_name(r.0.manager), r.0.env_path, r.0.python_path, r.1]
}

/// The width of column `i`: the byte length of its longest cell, header
/// included.
pub open spec fn column_width(rows: Seq<Row>, i: int) -> usize
    decreases rows.len(),
{
    if rows.len() == 0 {
        str_len(header_cells()[i])
    } else {
        let w = column_width(rows.drop_last(), i);
        let c = str_len(row_cells(rows.last())[i]);
        if c > w {
            c
        } else {
            w
        }
    }
}

pub open spec fn spaces(n: int) -> Seq<char>
    decreases n,
{
    if n <= 0 {
        seq![]
    } else {
        spaces(n - 1).push(' ')
    }
}

/// A cell left-aligned in `w` characters.
pub open spec fn pad(s: Seq<char>, w: usize) -> Seq<char> {
    if s.len() < w {
        s + spaces(w - s.len())
    } else {
        s
    }
}

/// A line of the table: the first three cells padded to their column
/// widths, two spaces between columns, the last cell as it is.
pub open spec fn table_line(cells: Seq<Seq<char>>, rows: Seq<Row>) -> Seq<char> {
    pad(cells[0], column_width(rows, 0)) + "  "@ + pad(cells[1], column_width(rows, 1)) + "  "@
        + pad(cells[2], column_width(rows, 2)) + "  "@ + cells[3] + "\n"@
}

/// The lines of the first `n` rows.
pub open spec fn table_body(rows: Seq<Row>, n: int) -> Seq<char>
    decreases n,
{
    if n <= 0 {
        seq![]
    } else {
        table_body(rows, n - 1) + table_line(row_cells(rows[n - 1]), rows)
    }
}

/// The whole table: the header line, then one line per row.
pub open spec fn table_text(rows: Seq<Row>) -> Seq<char> {
    table_line(header_cells(), rows) + table_body(rows, rows.len() as int)
}

/// Table order is transitive.
pub proof fn lemma_row_lt_transitive(a: Row, b: Row, c: Row)
    requires
        row_lt(a, b),
        row_lt(b, c),
    ensures
        row_lt(a, c),
{
    let (ea, eb, ec) = (
        to_ascii_lowercase(a.0.env_path),
        to_ascii_lowercase(b.0.env_path),
        to_ascii_lowercase(c.0.env_path),
    );
    if seq_lt(ea, eb) && seq_lt(eb, ec) {
        lemma_seq_lt_transitive(ea, eb, ec);
    }
    if seq_lt(a.0.python_path, b.0.python_path) && seq_lt(b.0.python_path, c.0.python_path) {
        lemma_seq_lt_transitive(a.0.python_path, b.0.python_path, c.0.python_path);
    }
}

/// Inserting after the rows that `x` does not come before is `insert_row`.
proof fn lemma_insert_row_at(sorted: Seq<Row>, x: Row, p: int)
    requires
        0 <= p <= sorted.len(),
        forall|q: int| 0 <= q < p ==> !row_lt(x, #[trigger] sorted[q]),
        p < sorted.len() ==> row_lt(x, sorted[p]),
    ensures
        insert_row(sorted, x) == sorted.insert(p, x),
    decreases sorted.len(),
{
    if sorted.len() == 0 {
        assert(sorted.insert(p, x) =~= seq![x]);
    } else if p == 0 {
        assert(sorted.insert(0, x) =~= seq![x] + sorted);
    } else {
        let rest = sorted.drop_first();
        assert forall|q: int| 0 <= q < p - 1 implies !row_lt(x, #[trigger] rest[q]) by {
            assert(rest[q] == sorted[q + 1]);
        }
        lemma_insert_row_at(rest, x, p - 1);
        assert(sorted.insert(p, x) =~= seq![sorted[0]] + rest.insert(p - 1, x));
    }
}

fn row_lt_exec(a: &(Candidate, Vec<char>), b: &(Candidate, Vec<char>)) -> (r: bool)
    ensures
        r == row_lt((a.0@, a.1@), (b.0@, b.1@)),
{
    let ra = a.0.manager.priority();
    let rb = b.0.manager.priority();
    if ra != rb {
        return ra < rb;
    }
    let ea = to_ascii_lowercase_exec(&chars_of(a.0.env_path.as_str()));
    let eb = to_ascii_lowercase_exec(&chars_of(b.0.env_path.as_str()));
    if seq_lt_exec(&ea, &eb) {
        return true;
    }
    if !seq_eq(&ea, &eb) {
        return false;
    }
    seq_lt_exec(&chars_of(a.0.python_path.as_str()), &chars_of(b.0.python_path.as_str()))
}

pub open spec fn row_views(v: Seq<(Candidate, Vec<char>)>) -> Seq<Row> {
    v.map_values(|r: (Candidate, Vec<char>)| (r.0@, r.1@))
}

/// The byte length of a text.
fn str_len_exec(s: &Vec<char>) -> (r: usize)
    ensures
        r == str_len(s@),
{
    let t = string_of(s.as_slice());
    t.as_str().len()
}

/// `s` padded with spaces to `w` characters, added to `out`.
fn push_padded(out: &mut Vec<char>, s: &Vec<char>, w: usize)
    ensures
        final(out)@ == old(out)@ + pad(s@, w),
{
    let ghost start = out@;
    let mut i: usize = 0;
    while i < s.len()
        invariant
            i <= s.len(),
            out@ == start + s@.take(i as int),
        decreases s.len() - i,
    {
        out.push(s[i]);
        i += 1;
        assert(out@ =~= start + s@.take(i as int));
    }
    assert(s@.take(s.len() as int) =~= s@);
    if s.len() < w {
        let mut k: usize = s.len();
        let ghost mid = out@;
        assert(spaces(0) =~= Seq::<char>::empty());
        while k < w
            invariant
                s.len() <= k <= w,
                out@ == mid + spaces(k - s.len()),
            decreases w - k,
        {
            out.push(' ');
            k += 1;
            assert(out@ =~= mid + spaces(k - s.len()));
        }
        assert(out@ =~= start + (s@ + spaces(w - s.len())));
    } else {
        assert(out@ =~= start + s@);
    }
}

fn push_all(out: &mut Vec<char>, s: &Vec<char>)
    ensures
        final(out)@ == old(out)@ + s@,
{
    let ghost start = out@;
    let mut i: usize = 0;
    while i < s.len()
        invariant
            i <= s.len(),
            out@ == start + s@.take(i as int),
        decreases s.len() - i,
    {
        out.push(s[i]);
        i += 1;
        assert(out@ =~= start + s@.take(i as int));
    }
    assert(s@.take(s.len() as int) =~= s@);
}

/// A line of the table for the cells `c`.
fn push_line(out: &mut Vec<char>, c: &Vec<Vec<char>>, widths: &Vec<usize>, ghost_rows: Ghost<Seq<Row>>)
    requires
        c.len() == 4,
        widths.len() == 4,
        forall|i: int| 0 <= i < 4 ==> widths@[i] == column_width(ghost_rows@, i),
    ensures
        final(out)@ == old(out)@ + table_line(
            seq![c@[0]@, c@[1]@, c@[2]@, c@[3]@],
            ghost_rows@,
        ),
{
    let gap = lit("  ");
    let nl = lit("\n");
    let ghost start = out@;
    push_padded(out, &c[0], widths[0]);
    push_all(out, &gap);
    push_padded(out, &c[1], widths[1]);
    push_all(out, &gap);
    push_padded(out, &c[2], widths[2]);
    push_all(out, &gap);
    push_all(out, &c[3]);
    push_all(out, &nl);
    assert(out@ =~= start + table_line(seq![c@[0]@, c@[1]@, c@[2]@, c@[3]@], ghost_rows@));
}

fn cells_of(r: &(Candidate, Vec<char>)) -> (c: Vec<Vec<char>>)
    ensures
        c.len() == 4,
        seq![c@[0]@, c@[1]@, c@[2]@, c@[3]@] == row_cells((r.0@, r.1@)),
{
    let mut c: Vec<Vec<char>> = Vec::new();
    c.push(chars_of(r.0.manager.label()));
    c.push(chars_of(r.0.env_path.as_str()));
    c.push(chars_of(r.0.python_path.as_str()));
    c.push(r.1.clone());
    assert(seq![c@[0]@, c@[1]@, c@[2]@, c@[3]@] =~= row_cells((r.0@, r.1@)));
    c
}

/// The table of the matches that have a MATCH text: a header line
/// (`MANAGER`, `ENV`, `PYTHON`, `MATCH`) and one line per match, ordered by
/// manager rank, environment path (ASCII case folded) and interpreter path,
/// the first three columns padded to their widest cell.
pub fn render_table(matches: &Vec<(Candidate, ProbeResult)>) -> (r: String)
    ensures
        r@ == table_text(sort_rows(table_rows(matches@))),
{
    // The rows, in the order given.
    let mut rows: Vec<(Candidate, Vec<char>)> = Vec::new();
    let mut i: usize = 0;
    assert(matches@.take(0) =~= Seq::<(Candidate, ProbeResult)>::empty());
    while i < matches.len()
        invariant
            i <= matches.len(),
            row_views(rows@) == table_rows(matches@.take(i as int)),
        decreases matches.len() - i,
    {
        let ghost before = row_views(rows@);
        proof {
            assert(matches@.take(i + 1).drop_last() =~= matches@.take(i as int));
            assert(matches@.take(i + 1).last() == matches@[i as int]);
        }
        match render_match(&matches[i].1) {
            Some(t) => {
                rows.push((matches[i].0.duplicate(), chars_of(t.as_str())));
                assert(row_views(rows@) =~= before.push((matches@[i as int].0@, t@)));
            },
            None => {},
        }
        i += 1;
    }
    assert(matches@.take(matches.len() as int) =~= matches@);
    // Insertion sort: each row goes after every row it does not come before.
    let mut sorted: Vec<(Candidate, Vec<char>)> = Vec::new();
    let ghost all = row_views(rows@);
    let mut t: usize = 0;
    assert(all.take(0) =~= Seq::<Row>::empty());
    while t < rows.len()
        invariant
            t <= rows.len(),
            all == row_views(rows@),
            row_views(sorted@) == sort_rows(all.take(t as int)),
        decreases rows.len() - t,
    {
        let x = (rows[t].0.duplicate(), rows[t].1.clone());
        let mut p: usize = 0;
        while p < sorted.len() && !row_lt_exec(&x, &sorted[p])
            invariant
                p <= sorted.len(),
                forall|q: int| 0 <= q < p ==> !row_lt((x.0@, x.1@), #[trigger] row_views(sorted@)[q]),
            decreases sorted.len() - p,
        {
            p += 1;
        }
        let ghost before = row_views(sorted@);
        proof {
            lemma_insert_row_at(before, (x.0@, x.1@), p as int);
            assert(all.take(t + 1).drop_last() =~= all.take(t as int));
            assert(all.take(t + 1).last() == (x.0@, x.1@));
        }
        sorted.insert(p, x);
        assert(row_views(sorted@) =~= before.insert(p as int, (x.0@, x.1@)));
        t += 1;
    }
    assert(all.take(rows.len() as int) =~= all);
    let ghost srows = row_views(sorted@);
    // Column widths.
    let mut widths: Vec<usize> = Vec::new();
    let mut col: usize = 0;
    while col < 4
        invariant
            col <= 4,
            srows == row_views(sorted@),
            widths.len() == col,
            forall|c: int| 0 <= c < col ==> widths@[c] == column_width(srows, c),
        decreases 4 - col,
    {
        let header = if col == 0 {
            lit("MANAGER")
        } else if col == 1 {
            lit("ENV")
        } else if col == 2 {
            lit("PYTHON")
        } else {
            lit("MATCH")
        };
        assert(header@ == header_cells()[col as int]);
        let mut w = str_len_exec(&header);
        let mut k: usize = 0;
        assert(srows.take(0) =~= Seq::<Row>::empty());
        while k < sorted.len()
            invariant
                k <= sorted.len(),
                col < 4,
                srows == row_views(sorted@),
                w == column_width(srows.take(k as int), col as int),
            decreases sorted.len() - k,
        {
            let cells = cells_of(&sorted[k]);
            let c = str_len_exec(&cells[col]);
            proof {
                assert(srows.take(k + 1).drop_last() =~= srows.take(k as int));
                assert(srows.take(k + 1).last() == srows[k as int]);
                assert(row_cells(srows[k as int])[col as int] == cells@[col as int]@);
            }
            if c > w {
                w = c;
            }
            k += 1;
        }
        assert(srows.take(sorted.len() as int) =~= srows);
        widths.push(w);
        col += 1;
    }
    // The lines.
    let mut out: Vec<char> = Vec::new();
    let mut headers: Vec<Vec<char>> = Vec::new();
    headers.push(lit("MANAGER"));
    headers.push(lit("ENV"));
    headers.push(lit("PYTHON"));
    headers.push(lit("MATCH"));
    assert(seq![headers@[0]@, headers@[1]@, headers@[2]@, headers@[3]@] =~= header_cells());
    push_line(&mut out, &headers, &widths, Ghost(srows));
    let mut j: usize = 0;
    while j < sorted.len()
        invariant
            j <= sorted.len(),
            srows == row_views(sorted@),
            widths.len() == 4,
            forall|c: int| 0 <= c < 4 ==> widths@[c] == column_width(srows, c),
            out@ == table_line(header_cells(), srows) + table_body(srows, j as int),
        decreases sorted.len() - j,
    {
        let cells = cells_of(&sorted[j]);
        assert(srows[j as int] == (sorted@[j as int].0@, sorted@[j as int].1@));
        push_line(&mut out, &cells, &widths, Ghost(srows));
        j += 1;
    }
    string_of(out.as_slice())
}

/// Inserting into rows in table order keeps them in table order.
proof fn lemma_insert_row_sorted(sorted: Seq<Row>, x: Row)
    requires
        forall|i: int, j: int| 0 <= i < j < sorted.len() ==> !row_lt(sorted[j], sorted[i]),
    ensures
        forall|i: int, j: int|
            0 <= i < j < insert_row(sorted, x).len() ==> !row_lt(
                insert_row(sorted, x)[j],
                insert_row(sorted, x)[i],
            ),
        insert_row(sorted, x).to_multiset() == sorted.to_multiset().insert(x),
    decreases sorted.len(),
{
    broadcast use vstd::seq_lib::group_to_multiset_ensures;

    let r = insert_row(sorted, x);
    if sorted.len() == 0 {
        assert(r =~= seq![x]);
        assert(seq![x] =~= Seq::<Row>::empty().push(x));
    } else if row_lt(x, sorted[0]) {
        assert forall|i: int, j: int| 0 <= i < j < r.len() implies !row_lt(r[j], r[i]) by {
            if i == 0 {
                assert(r[j] == sorted[j - 1]);
                if row_lt(sorted[j - 1], x) {
                    if j - 1 > 0 {
                        lemma_row_lt_transitive(sorted[j - 1], x, sorted[0]);
                    } else {
                        lemma_row_lt_transitive(x, sorted[0], x);
                        lemma_row_lt_irreflexive(x);
                    }
                }
            } else {
                assert(r[i] == sorted[i - 1]);
                assert(r[j] == sorted[j - 1]);
            }
        }
        assert(r =~= seq![x] + sorted);
        vstd::seq_lib::lemma_multiset_commutative(seq![x], sorted);
        assert(seq![x] =~= Seq::<Row>::empty().push(x));
    } else {
        let rest = sorted.drop_first();
        assert forall|i: int, j: int| 0 <= i < j < rest.len() implies !row_lt(rest[j], rest[i]) by {
            assert(rest[i] == sorted[i + 1]);
            assert(rest[j] == sorted[j + 1]);
        }
        lemma_insert_row_sorted(rest, x);
        let ir = insert_row(rest, x);
        assert(r == seq![sorted[0]] + ir);
        assert forall|i: int, j: int| 0 <= i < j < r.len() implies !row_lt(r[j], r[i]) by {
            if i == 0 {
                assert(r[j] == ir[j - 1]);
                // every row of `ir` is `x` or a row of `rest`
                assert(ir.to_multiset().count(ir[j - 1]) > 0);
                assert(rest.to_multiset().insert(x).count(ir[j - 1]) > 0);
                if ir[j - 1] != x {
                    assert(rest.to_multiset().count(ir[j - 1]) > 0);
                    assert(rest.contains(ir[j - 1]));
                    let k = choose|k: int| 0 <= k < rest.len() && rest[k] == ir[j - 1];
                    assert(sorted[k + 1] == rest[k]);
                }
            } else {
                assert(r[i] == ir[i - 1]);
                assert(r[j] == ir[j - 1]);
            }
        }
        vstd::seq_lib::lemma_multiset_commutative(seq![sorted[0]], ir);
        vstd::seq_lib::lemma_multiset_commutative(seq![sorted[0]], rest);
        assert(sorted =~= seq![sorted[0]] + rest);
        assert(seq![sorted[0]] =~= Seq::<Row>::empty().push(sorted[0]));
        assert(r.to_multiset() =~= sorted.to_multiset().insert(x));
    }
}

/// No row comes before itself in table order.
pub proof fn lemma_row_lt_irreflexive(a: Row)
    ensures
        !row_lt(a, a),
{
    crate::text::lemma_seq_lt_irreflexive(to_ascii_lowercase(a.0.env_path));
    crate::text::lemma_seq_lt_irreflexive(a.0.python_path);
}

/// The table's rows are in table order (no row comes before an earlier one)
/// and are exactly the rows given, each as often as given.
pub proof fn lemma_sort_rows_sorted(rows: Seq<Row>)
    ensures
        forall|i: int, j: int|
            0 <= i < j < sort_rows(rows).len() ==> !row_lt(sort_rows(rows)[j], sort_rows(rows)[i]),
        sort_rows(rows).to_multiset() == rows.to_multiset(),
    decreases rows.len(),
{
    broadcast use vstd::seq_lib::group_to_multiset_ensures;

    if rows.len() == 0 {
        assert(sort_rows(rows) =~= rows);
    } else {
        lemma_sort_rows_sorted(rows.drop_last());
        lemma_insert_row_sorted(sort_rows(rows.drop_last()), rows.last());
        assert(rows =~= rows.drop_last().push(rows.last()));
    }
}

/// Table order is a strict weak order: a row that comes before `b` comes
/// before every row that `b` does not come after.
pub proof fn lemma_row_lt_negative_transitive(a: Row, b: Row, c: Row)
    requires
        row_lt(a, b),
        !row_lt(c, b),
    ensures
        row_lt(a, c),
{
    let (ea, eb, ec) = (
        to_ascii_lowercase(a.0.env_path),
        to_ascii_lowercase(b.0.env_path),
        to_ascii_lowercase(c.0.env_path),
    );
    let (pa, pb, pc) = (a.0.python_path, b.0.python_path, c.0.python_path);
    lemma_seq_lt_total(eb, ec);
    lemma_seq_lt_total(pb, pc);
    if seq_lt(ea, eb) && seq_lt(eb, ec) {
        lemma_seq_lt_transitive(ea, eb, ec);
    }
    if seq_lt(pa, pb) && seq_lt(pb, pc) {
        lemma_seq_lt_transitive(pa, pb, pc);
    }
}

/// `insert_row` puts `x` right before the first row that `x` comes before.
proof fn lemma_insert_row_position(sorted: Seq<Row>, x: Row) -> (k: int)
    ensures
        0 <= k <= sorted.len(),
        insert_row(sorted, x) == sorted.insert(k, x),
        forall|q: int| 0 <= q < k ==> !row_lt(x, #[trigger] sorted[q]),
        k < sorted.len() ==> row_lt(x, sorted[k]),
    decreases sorted.len(),
{
    if sorted.len() == 0 {
        assert(sorted.insert(0, x) =~= seq![x]);
        0
    } else if row_lt(x, sorted[0]) {
        assert(sorted.insert(0, x) =~= seq![x] + sorted);
        0
    } else {
        let rest = sorted.drop_first();
        let k = lemma_insert_row_position(rest, x);
        assert(sorted.insert(k + 1, x) =~= seq![sorted[0]] + rest.insert(k, x));
        assert forall|q: int| 0 <= q < k + 1 implies !row_lt(x, #[trigger] sorted[q]) by {
            if q > 0 {
                assert(sorted[q] == rest[q - 1]);
            }
        }
        if k < rest.len() {
            assert(sorted[k + 1] == rest[k]);
        }
        k + 1
    }
}

/// Sorting is stable: of two rows given in one order, where the later does
/// not come before the earlier, the table shows the earlier first.
pub proof fn lemma_sort_rows_stable(rows: Seq<Row>, i: int, j: int)
    requires
        0 <= i < j < rows.len(),
        !row_lt(rows[j], rows[i]),
    ensures
        exists|p: int, q: int|
            0 <= p < q < sort_rows(rows).len() && #[trigger] sort_rows(rows)[p] == rows[i]
                && #[trigger] sort_rows(rows)[q] == rows[j],
    decreases rows.len(),
{
    broadcast use vstd::seq_lib::group_to_multiset_ensures;

    let init = rows.drop_last();
    let s = sort_rows(init);
    let x = rows.last();
    let k = lemma_insert_row_position(s, x);
    let out = sort_rows(rows);
    assert(out == s.insert(k, x));
    if j < rows.len() - 1 {
        assert(init[i] == rows[i] && init[j] == rows[j]);
        lemma_sort_rows_stable(init, i, j);
        let (p, q) = choose|p: int, q: int|
            0 <= p < q < s.len() && #[trigger] s[p] == init[i] && #[trigger] s[q] == init[j];
        let p2 = if p < k {
            p
        } else {
            p + 1
        };
        let q2 = if q < k {
            q
        } else {
            q + 1
        };
        assert(out[p2] == rows[i]);
        assert(out[q2] == rows[j]);
    } else {
        lemma_sort_rows_sorted(init);
        assert(init[i] == rows[i]);
        assert(init.contains(rows[i]));
        assert(init.to_multiset().count(rows[i]) > 0);
        assert(s.to_multiset().count(rows[i]) > 0);
        assert(s.contains(rows[i]));
        let p = choose|p: int| 0 <= p < s.len() && s[p] == rows[i];
        if p >= k {
            assert(k < s.len());
            if k < p {
                lemma_row_lt_negative_transitive(x, s[k], s[p]);
            }
            assert(false);
        }
        assert(out[p] == rows[i]);
        assert(out[k] == rows[j]);
    }
}

/// The rows of the table are the matching pairs, in the order given: one row
/// per pair whose probe result has a MATCH text, showing its candidate and
/// that text.
pub open spec fn is_matching(p: (Candidate, ProbeResult)) -> bool {
    match_text(p.1) is Some
}

pub open spec fn row_of(p: (Candidate, ProbeResult)) -> Row {
    (p.0@, match_text(p.1)->0)
}

proof fn lemma_table_rows_filter(matches: Seq<(Candidate, ProbeResult)>)
    ensures
        table_rows(matches) == matches.filter(|p: (Candidate, ProbeResult)| is_matching(p)).map_values(
            |p: (Candidate, ProbeResult)| row_of(p),
        ),
    decreases matches.len(),
{
    reveal(Seq::filter);
    let f = |p: (Candidate, ProbeResult)| is_matching(p);
    let g = |p: (Candidate, ProbeResult)| row_of(p);
    if matches.len() > 0 {
        lemma_table_rows_filter(matches.drop_last());
        let prev = matches.drop_last().filter(f);
        if is_matching(matches.last()) {
            assert(matches.filter(f) == prev.push(matches.last()));
            assert(prev.push(matches.last()).map_values(g) =~= prev.map_values(g) + seq![
                row_of(matches.last()),
            ]);
        } else {
            assert(matches.filter(f) == prev);
        }
    } else {
        assert(matches.filter(f).map_values(g) =~= Seq::<Row>::empty());
    }
}

/// The lines of the table: the lines after the header stand one to one for
/// the matching pairs (each pair without a MATCH text gives none), each
/// showing the candidate's manager, its paths in full and the MATCH text;
/// they are in table order, and pairs that compare equal keep the order in
/// which they were given.
pub proof fn lemma_table_lines(matches: Seq<(Candidate, ProbeResult)>)
    ensures
        ({
            let given = table_rows(matches);
            let shown = sort_rows(given);
            &&& given == matches.filter(|p: (Candidate, ProbeResult)| is_matching(p)).map_values(
                |p: (Candidate, ProbeResult)| row_of(p),
            )
            &&& shown.to_multiset() == given.to_multiset()
            &&& forall|i: int, j: int|
                0 <= i < j < shown.len() ==> !row_lt(shown[j], shown[i])
            &&& forall|i: int, j: int|
                0 <= i < j < given.len() && !row_lt(given[j], given[i]) ==> exists|p: int, q: int|
                    0 <= p < q < shown.len() && #[trigger] shown[p] == given[i] && #[trigger] shown[q]
                        == given[j]
            &&& forall|k: int|
                0 <= k < shown.len() ==> #[trigger] row_cells(shown[k]) == seq![
                    manager_name(shown[k].0.manager),
                    shown[k].0.env_path,
                    shown[k].0.python_path,
                    shown[k].1,
                ]
            &&& table_text(shown) == table_line(header_cells(), shown) + table_body(
                shown,
                shown.len() as int,
            )
        }),
{
    let given = table_rows(matches);
    let shown = sort_rows(given);
    lemma_table_rows_filter(matches);
    lemma_sort_rows_sorted(given);
    assert forall|i: int, j: int|
        0 <= i < j < given.len() && !row_lt(given[j], given[i]) implies exists|p: int, q: int|
        0 <= p < q < shown.len() && #[trigger] shown[p] == given[i] && #[trigger] shown[q]
            == given[j] by {
        lemma_sort_rows_stable(given, i, j);
    }
}

/// The layout of the table. Each of the first three columns is as wide, in
/// bytes, as its longest cell, header included: no cell is wider, and the
/// header or some row's cell is that wide. A cell is padded with spaces after
/// it up to that many characters, and never cut. The header line comes
/// first, then one line per row; each line is its three padded cells and the
/// last cell, two spaces apart, ended by a line break.
pub proof fn lemma_table_layout(rows: Seq<Row>)
    ensures
        forall|c: int|
            0 <= c < 4 ==> {
                &&& #[trigger] column_width(rows, c) >= str_len(header_cells()[c])
                &&& forall|k: int|
                    0 <= k < rows.len() ==> str_len(#[trigger] row_cells(rows[k])[c])
                        <= column_width(rows, c)
                &&& column_width(rows, c) == str_len(header_cells()[c]) || exists|k: int|
                    0 <= k < rows.len() && str_len(#[trigger] row_cells(rows[k])[c])
                        == column_width(rows, c)
            },
        forall|s: Seq<char>, w: usize|
            {
                &&& (#[trigger] pad(s, w)).take(s.len() as int) == s
                &&& pad(s, w).len() == if s.len() < w {
                    w as int
                } else {
                    s.len() as int
                }
                &&& forall|i: int| s.len() <= i < pad(s, w).len() ==> pad(s, w)[i] == ' '
            },
        table_text(rows) == table_line(header_cells(), rows) + table_body(rows, rows.len() as int),
        forall|k: int|
            0 <= k < rows.len() ==> #[trigger] table_body(rows, k + 1) == table_body(rows, k)
                + table_line(row_cells(rows[k]), rows),
        forall|cells: Seq<Seq<char>>|
            #[trigger] table_line(cells, rows) == pad(cells[0], column_width(rows, 0)) + "  "@
                + pad(cells[1], column_width(rows, 1)) + "  "@ + pad(cells[2], column_width(rows, 2))
                + "  "@ + cells[3] + "\n"@,
{
    assert forall|c: int| 0 <= c < 4 implies {
        &&& #[trigger] column_width(rows, c) >= str_len(header_cells()[c])
        &&& forall|k: int|
            0 <= k < rows.len() ==> str_len(#[trigger] row_cells(rows[k])[c]) <= column_width(
                rows,
                c,
            )
        &&& column_width(rows, c) == str_len(header_cells()[c]) || exists|k: int|
            0 <= k < rows.len() && str_len(#[trigger] row_cells(rows[k])[c]) == column_width(
                rows,
                c,
            )
    } by {
        lemma_column_width(rows, c);
    }
    assert forall|s: Seq<char>, w: usize| {
        &&& (#[trigger] pad(s, w)).take(s.len() as int) == s
        &&& pad(s, w).len() == if s.len() < w {
            w as int
        } else {
            s.len() as int
        }
        &&& forall|i: int| s.len() <= i < pad(s, w).len() ==> pad(s, w)[i] == ' '
    } by {
        if s.len() < w {
            lemma_spaces(w - s.len());
            assert((s + spaces(w - s.len())).take(s.len() as int) =~= s);
            assert forall|i: int| s.len() <= i < pad(s, w).len() implies pad(s, w)[i] == ' ' by {
                assert(pad(s, w)[i] == spaces(w - s.len())[i - s.len()]);
            }
        } else {
            assert(s.take(s.len() as int) =~= s);
        }
    }
}

proof fn lemma_spaces(n: int)
    ensures
        spaces(n).len() == if n < 0 {
            0
        } else {
            n
        },
        forall|i: int| 0 <= i < spaces(n).len() ==> spaces(n)[i] == ' ',
    decreases n,
{
    if n > 0 {
        lemma_spaces(n - 1);
    }
}

proof fn lemma_column_width(rows: Seq<Row>, c: int)
    requires
        0 <= c < 4,
    ensures
        column_width(rows, c) >= str_len(header_cells()[c]),
        forall|k: int|
            0 <= k < rows.len() ==> str_len(#[trigger] row_cells(rows[k])[c]) <= column_width(
                rows,
                c,
            ),
        column_width(rows, c) == str_len(header_cells()[c]) || exists|k: int|
            0 <= k < rows.len() && str_len(#[trigger] row_cells(rows[k])[c]) == column_width(
                rows,
                c,
            ),
    decreases rows.len(),
{
    if rows.len() > 0 {
        let init = rows.drop_last();
        lemma_column_width(init, c);
        assert forall|k: int| 0 <= k < rows.len() implies str_len(
            #[trigger] row_cells(rows[k])[c],
        ) <= column_width(rows, c) by {
            if k < init.len() {
                assert(rows[k] == init[k]);
            }
        }
        if column_width(rows, c) != str_len(header_cells()[c]) {
            if str_len(row_cells(rows.last())[c]) > column_width(init, c) {
                assert(str_len(row_cells(rows[rows.len() - 1])[c]) == column_width(rows, c));
            } else {
                let k = choose|k: int|
                    0 <= k < init.len() && str_len(#[trigger] row_cells(init[k])[c])
                        == column_width(init, c);
                assert(rows[k] == init[k]);
            }
        }
    }
}

} // verus!
