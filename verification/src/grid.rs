//! Cell assignment and grid construction, geometric strategy.
//!
//! Given split positions, each word falls into the column bin counting the
//! splits strictly left of its horizontal center; the words sharing a bin
//! in one row are joined by single spaces into that bin's cell. With no
//! splits a row collapses into a single cell.

use vstd::prelude::*;
use crate::words::{Word, WordV, cx2, wv, rv, sv, gv, ints, center2_x, lemma_sv_push, lemma_gv_push};
use crate::rows::{spec_group_into_rows, group_into_rows};
use crate::splits::{spec_scan_from, spec_detect_splits, spec_row_extremes, detect_column_splits};

verus! {

/// Number of splits strictly left of a word's doubled horizontal center
/// `c2x`; a split at the center itself counts as right of the word.
pub open spec fn spec_count_before(splits: Seq<int>, c2x: int) -> int
    decreases splits.len(),
{
    if splits.len() == 0 {
        0
    } else {
        spec_count_before(splits.drop_last(), c2x) + if c2x > 2 * splits.last() {
            1int
        } else {
            0int
        }
    }
}

/// The column bin of a word: the count of splits left of its center,
/// clamped to the last column.
pub open spec fn spec_col_of(w: WordV, splits: Seq<int>, num_cols: int) -> int {
    let c = spec_count_before(splits, cx2(w));
    if c >= num_cols {
        num_cols - 1
    } else {
        c
    }
}

/// The texts of the words of `row` whose bin is `j`, in row order.
pub open spec fn spec_cell_texts(row: Seq<WordV>, splits: Seq<int>, num_cols: int, j: int) -> Seq<
    Seq<char>,
>
    decreases row.len(),
{
    if row.len() == 0 {
        Seq::empty()
    } else {
        let rest = spec_cell_texts(row.drop_last(), splits, num_cols, j);
        if spec_col_of(row.last(), splits, num_cols) == j {
            rest.push(row.last().text)
        } else {
            rest
        }
    }
}

/// Texts joined by a single space between neighbours.
pub open spec fn spec_join(parts: Seq<Seq<char>>) -> Seq<char>
    decreases parts.len(),
{
    if parts.len() == 0 {
        Seq::empty()
    } else if parts.len() == 1 {
        parts[0]
    } else {
        spec_join(parts.drop_last()) + seq![' '] + parts.last()
    }
}

/// The cells of one row: for each of the `num_cols` bins, the joined texts
/// of the row's words in that bin.
pub open spec fn spec_assign(row: Seq<WordV>, splits: Seq<int>, num_cols: int) -> Seq<Seq<char>> {
    Seq::new(
        num_cols as nat,
        |j: int| spec_join(spec_cell_texts(row, splits, num_cols, j)),
    )
}

/// The grid of a row sequence under a split sequence: one cell sequence
/// per row, each `splits.len() + 1` cells wide.
pub open spec fn spec_grid(rows: Seq<Seq<WordV>>, splits: Seq<int>) -> Seq<Seq<Seq<char>>> {
    rows.map_values(|row: Seq<WordV>| spec_assign(row, splits, splits.len() as int + 1))
}

/// The full geometric pipeline: group into rows, detect splits, assign
/// cells.
pub open spec fn spec_build_grid(words: Seq<WordV>, thr_x2: int, gap_thr: int) -> Seq<
    Seq<Seq<char>>,
> {
    let rows = spec_group_into_rows(words, thr_x2);
    spec_grid(rows, spec_detect_splits(rows, gap_thr))
}

/// A scan from state (`i`, `in_gap`) finds at most one split per two
/// remaining positions, plus one if a run is already open.
pub proof fn lemma_scan_len(
    c: Seq<bool>,
    i: int,
    in_gap: bool,
    gap_start: int,
    min_w: int,
    off: int,
)
    ensures
        i <= c.len() ==> 2 * spec_scan_from(c, i, in_gap, gap_start, min_w, off).len() <= c.len()
            - i + if in_gap {
            1int
        } else {
            0int
        },
        i > c.len() ==> spec_scan_from(c, i, in_gap, gap_start, min_w, off).len() == 0,
    decreases c.len() - i,
{
    if i < 0 || i >= c.len() {
    } else if c[i] && !in_gap {
        lemma_scan_len(c, i + 1, true, i, min_w, off);
    } else if !c[i] && in_gap {
        lemma_scan_len(c, i + 1, false, 0, min_w, off);
    } else {
        lemma_scan_len(c, i + 1, in_gap, gap_start, min_w, off);
    }
}

/// Number of splits strictly left of the doubled center `cx`.
fn count_splits_before(splits: &Vec<u64>, cx: u64) -> (c: usize)
    ensures
        c == spec_count_before(ints(splits@), cx as int),
        c <= splits@.len(),
{
    let mut c: usize = 0;
    let mut k: usize = 0;
    while k < splits.len()
        invariant
            k <= splits@.len(),
            c <= k,
            c == spec_count_before(ints(splits@).take(k as int), cx as int),
        decreases splits@.len() - k,
    {
        proof {
            assert(ints(splits@).take(k + 1).drop_last() =~= ints(splits@).take(k as int));
            assert(ints(splits@).take(k + 1).last() == splits@[k as int] as int);
        }
        if cx as u128 > 2 * (splits[k] as u128) {
            c += 1;
        }
        k += 1;
    }
    proof {
        assert(ints(splits@).take(splits@.len() as int) =~= ints(splits@));
    }
    c
}

/// Buckets the words of one row into `num_cols` cells at the given splits;
/// cell `j` is the single-space join of the texts of the words whose
/// horizontal center lies in bin `j`, in row order.
pub fn assign_to_columns(row: &Vec<Word>, splits: &Vec<u64>, num_cols: usize) -> (cells: Vec<
    String,
>)
    requires
        num_cols >= 1,
    ensures
        sv(cells@) == spec_assign(wv(row@), ints(splits@), num_cols as int),
{
    broadcast use lemma_sv_push;

    let ghost rowv = wv(row@);
    let ghost spl = ints(splits@);
    let ghost nc = num_cols as int;
    let mut cells: Vec<String> = Vec::new();
    let mut j: usize = 0;
    while j < num_cols
        invariant
            j <= num_cols,
            1 <= num_cols,
            rowv == wv(row@),
            spl == ints(splits@),
            nc == num_cols as int,
            sv(cells@).len() == j,
            forall|jj: int|
                0 <= jj < j ==> sv(cells@)[jj] == spec_join(spec_cell_texts(rowv, spl, nc, jj)),
        decreases num_cols - j,
    {
        let mut cell = String::new();
        let mut any = false;
        let mut i: usize = 0;
        proof {
            reveal_strlit(" ");
            assert(spec_cell_texts(rowv.take(0), spl, nc, j as int) =~= Seq::<Seq<char>>::empty());
        }
        while i < row.len()
            invariant
                i <= row@.len(),
                1 <= num_cols,
                rowv == wv(row@),
                spl == ints(splits@),
                nc == num_cols as int,
                " "@ == seq![' '],
                cell@ == spec_join(spec_cell_texts(rowv.take(i as int), spl, nc, j as int)),
                any == (spec_cell_texts(rowv.take(i as int), spl, nc, j as int).len() > 0),
            decreases row@.len() - i,
        {
            let w = &row[i];
            proof {
                assert(rowv.take(i + 1).drop_last() =~= rowv.take(i as int));
                assert(rowv.take(i + 1).last() == row@[i as int]@);
            }
            let cx = center2_x(w);
            let cnt = count_splits_before(splits, cx);
            let col = if cnt >= num_cols {
                num_cols - 1
            } else {
                cnt
            };
            assert(col as int == spec_col_of(w@, spl, nc));
            if col == j {
                let ghost parts = spec_cell_texts(rowv.take(i as int), spl, nc, j as int);
                if any {
                    cell.append(" ");
                }
                cell.append(w.text.as_str());
                proof {
                    if parts.len() == 0 {
                        assert(Seq::<char>::empty() + w.text@ =~= w.text@);
                        assert(spec_join(parts.push(w@.text)) == w@.text);
                    } else {
                        assert(parts.push(w@.text).drop_last() =~= parts);
                        assert(spec_join(parts) + " "@ + w.text@ =~= spec_join(parts) + seq![' ']
                            + w@.text);
                    }
                }
                any = true;
            }
            i += 1;
        }
        proof {
            assert(rowv.take(row@.len() as int) =~= rowv);
        }
        let ghost cellv = cell@;
        let ghost oldcells = cells@;
        cells.push(cell);
        proof {
            assert(cellv == spec_join(spec_cell_texts(rowv, spl, nc, j as int)));
            assert(sv(cells@) == sv(oldcells).push(cellv));
            assert(forall|jj: int|
                0 <= jj < j + 1 ==> sv(cells@)[jj] == spec_join(
                    spec_cell_texts(rowv, spl, nc, jj),
                ));
        }
        j += 1;
    }
    proof {
        assert(sv(cells@) =~= spec_assign(rowv, spl, nc));
    }
    cells
}

/// Reconstructs the grid of a word list: rows by vertical proximity at
/// `row_threshold_x2` (doubled units), splits at `gap_threshold`, then cell
/// assignment. Every word lands in exactly one cell; all rows of the result
/// are equally wide; an empty input yields an empty grid.
pub fn build_grid(words: Vec<Word>, row_threshold_x2: u64, gap_threshold: u64) -> (g: Vec<
    Vec<String>,
>)
    ensures
        gv(g@) == spec_build_grid(wv(words@), row_threshold_x2 as int, gap_threshold as int),
        words@.len() == 0 ==> g@.len() == 0,
{
    broadcast use lemma_gv_push;

    let ghost wordsv = wv(words@);
    let rows = group_into_rows(words, row_threshold_x2);
    let ghost rowsv = rv(rows@);
    let splits = detect_column_splits(&rows, gap_threshold);
    let ghost spl = ints(splits@);
    proof {
        assert(coords_in_range(rowsv)) by {
            assert forall|a: int, b: int|
                0 <= a < rowsv.len() && 0 <= b < rowsv[a].len() implies 0 <= #[trigger] rowsv[a][b].left
                <= u32::MAX && 0 <= rowsv[a][b].right <= u32::MAX by {
                assert(rowsv[a] == wv(rows@[a]@));
                assert(rowsv[a][b] == rows@[a]@[b]@);
            }
        }
        lemma_detect_splits_len(rowsv, gap_threshold as int);
        assert(splits@.len() < usize::MAX);
    }
    let num_cols = splits.len() + 1;
    let mut g: Vec<Vec<String>> = Vec::new();
    let mut a: usize = 0;
    while a < rows.len()
        invariant
            a <= rows@.len(),
            num_cols == splits@.len() + 1,
            rowsv == rv(rows@),
            spl == ints(splits@),
            gv(g@).len() == a,
            forall|b: int| 0 <= b < a ==> gv(g@)[b] == spec_assign(rowsv[b], spl, spl.len() as int + 1),
        decreases rows@.len() - a,
    {
        let cells = assign_to_columns(&rows[a], &splits, num_cols);
        let ghost cellsv = sv(cells@);
        let ghost oldg = g@;
        g.push(cells);
        proof {
            assert(rowsv[a as int] == wv(rows@[a as int]@));
            assert(num_cols as int == spl.len() as int + 1);
            assert(cellsv == spec_assign(rowsv[a as int], spl, spl.len() as int + 1));
            assert(gv(g@) == gv(oldg).push(cellsv));
            assert(forall|b: int|
                0 <= b < a + 1 ==> gv(g@)[b] == spec_assign(rowsv[b], spl, spl.len() as int + 1));
        }
        a += 1;
    }
    proof {
        assert(gv(g@) =~= spec_grid(rowsv, spl));
    }
    g
}

/// All coordinates of the words of `rows` lie in the `u32` range.
pub open spec fn coords_in_range(rows: Seq<Seq<WordV>>) -> bool {
    forall|a: int, b: int|
        0 <= a < rows.len() && 0 <= b < rows[a].len() ==> 0 <= #[trigger] rows[a][b].left
            <= u32::MAX && 0 <= rows[a][b].right <= u32::MAX
}

/// The extremes of one row of range-bounded words are range-bounded.
proof fn lemma_row_extremes_bounds(row: Seq<WordV>)
    requires
        forall|b: int|
            0 <= b < row.len() ==> 0 <= #[trigger] row[b].left <= u32::MAX && 0 <= row[b].right
                <= u32::MAX,
    ensures
        match spec_row_extremes(row) {
            None => true,
            Some(p) => 0 <= p.0 <= u32::MAX && 0 <= p.1 <= u32::MAX,
        },
    decreases row.len(),
{
    if row.len() > 0 {
        assert forall|b: int| 0 <= b < row.drop_last().len() implies 0 <= #[trigger] row.drop_last(
        )[b].left <= u32::MAX && 0 <= row.drop_last()[b].right <= u32::MAX by {
            assert(row.drop_last()[b] == row[b]);
        }
        lemma_row_extremes_bounds(row.drop_last());
        assert(row.last() == row[row.len() - 1]);
    }
}

/// The extremes of a range-bounded row sequence are range-bounded, so the
/// histogram has at most `u32::MAX + 1` positions.
pub proof fn lemma_extremes_bounds(rows: Seq<Seq<WordV>>)
    requires
        coords_in_range(rows),
    ensures
        match crate::splits::spec_extremes(rows) {
            None => true,
            Some(e) => 0 <= e.0 <= u32::MAX && 0 <= e.1 <= u32::MAX,
        },
    decreases rows.len(),
{
    if rows.len() > 0 {
        assert forall|a: int, b: int|
            0 <= a < rows.drop_last().len() && 0 <= b < rows.drop_last()[a].len() implies 0
            <= #[trigger] rows.drop_last()[a][b].left <= u32::MAX && 0 <= rows.drop_last(
        )[a][b].right <= u32::MAX by {
            assert(rows.drop_last()[a] == rows[a]);
            assert(rows[a][b].left <= u32::MAX);
        }
        lemma_extremes_bounds(rows.drop_last());
        let lastrow = rows[rows.len() - 1];
        assert forall|b: int| 0 <= b < lastrow.len() implies 0 <= #[trigger] lastrow[b].left
            <= u32::MAX && 0 <= lastrow[b].right <= u32::MAX by {
            assert(rows[rows.len() - 1][b].left <= u32::MAX);
        }
        lemma_row_extremes_bounds(lastrow);
        assert(rows.last() == rows[rows.len() - 1]);
    }
}

/// The splits of a range-bounded row sequence number at most half the
/// histogram positions, so the split count never reaches `usize::MAX`.
pub proof fn lemma_detect_splits_len(rows: Seq<Seq<WordV>>, gap_thr: int)
    requires
        coords_in_range(rows),
    ensures
        2 * spec_detect_splits(rows, gap_thr).len() <= u32::MAX as int + 2,
{
    match crate::splits::spec_extremes(rows) {
        None => {},
        Some(e) => {
            let width = e.1 - e.0;
            if width > 0 {
                let cands = Seq::new(
                    (width + 1) as nat,
                    |p: int|
                        crate::splits::spec_coverage(rows, e.0, p) <= crate::splits::spec_mincov(
                            rows.len() as int,
                        ),
                );
                lemma_scan_len(cands, 0, false, 0, gap_thr, e.0);
                lemma_extremes_bounds(rows);
            }
        },
    }
}

} // verus!
