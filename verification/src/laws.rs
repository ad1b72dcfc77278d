//! The engine's global guarantees, stated and proved over the pipeline's
//! specification functions: determinism, unit coverage, column-count
//! uniformity, and the empty-input behaviour.

use vstd::prelude::*;
use vstd::multiset::Multiset;
use crate::words::WordV;
use crate::rows::{insert_sorted, spec_sort, spec_group_rest, spec_group, spec_group_into_rows};
use crate::grid::{
    spec_count_before, spec_col_of, spec_cell_texts, spec_assign, spec_grid, spec_build_grid,
};
use crate::lines::{spec_slice_cells, spec_build_grid_lines};
use crate::region::RegionContent;
use crate::region::spec_reconstruct;

verus! {

broadcast use vstd::seq_lib::group_to_multiset_ensures, vstd::multiset::group_multiset_axioms;

/// All words of a grouped row sequence, row by row.
pub open spec fn flatten_words(rows: Seq<Seq<WordV>>) -> Seq<WordV>
    decreases rows.len(),
{
    if rows.len() == 0 {
        Seq::empty()
    } else {
        rows[0] + flatten_words(rows.drop_first())
    }
}

/// Concatenation adds word multisets.
proof fn lemma_concat_multiset(a: Seq<WordV>, b: Seq<WordV>)
    ensures
        (a + b).to_multiset() == a.to_multiset().add(b.to_multiset()),
    decreases b.len(),
{
    if b.len() == 0 {
        assert(a + b =~= a);
        assert(b.to_multiset() =~= Multiset::<WordV>::empty());
        assert(a.to_multiset().add(b.to_multiset()) =~= a.to_multiset());
    } else {
        lemma_concat_multiset(a, b.drop_last());
        assert(a + b =~= (a + b.drop_last()).push(b.last()));
        assert(b =~= b.drop_last().push(b.last()));
        assert(a.to_multiset().add(b.drop_last().to_multiset().insert(b.last()))
            =~= a.to_multiset().add(b.drop_last().to_multiset()).insert(b.last()));
    }
}

/// Insertion adds one word to the multiset.
proof fn lemma_insert_sorted_multiset(t: Seq<WordV>, x: WordV, by_center: bool)
    ensures
        insert_sorted(t, x, by_center).to_multiset() == t.to_multiset().insert(x),
    decreases t.len(),
{
    if t.len() == 0 {
        assert(seq![x] =~= Seq::<WordV>::empty().push(x));
        assert(Seq::<WordV>::empty().to_multiset() =~= Multiset::<WordV>::empty());
        assert(t.to_multiset() =~= Multiset::<WordV>::empty());
    } else if crate::rows::sort_key(t.last(), by_center) <= crate::rows::sort_key(x, by_center) {
    } else {
        lemma_insert_sorted_multiset(t.drop_last(), x, by_center);
        assert(t =~= t.drop_last().push(t.last()));
        assert(t.drop_last().to_multiset().insert(x).insert(t.last()) =~= t.drop_last(
        ).to_multiset().insert(t.last()).insert(x));
    }
}

/// Sorting permutes: the sorted sequence holds exactly the input words.
pub proof fn lemma_sort_permutes(s: Seq<WordV>, by_center: bool)
    ensures
        spec_sort(s, by_center).to_multiset() == s.to_multiset(),
    decreases s.len(),
{
    if s.len() == 0 {
        assert(spec_sort(s, by_center).to_multiset() =~= s.to_multiset());
    } else {
        lemma_sort_permutes(s.drop_last(), by_center);
        lemma_insert_sorted_multiset(spec_sort(s.drop_last(), by_center), s.last(), by_center);
        assert(s =~= s.drop_last().push(s.last()));
    }
}

/// Grouping the remaining words onto the open row keeps every word: the
/// grouped rows flatten to the open row's words plus the remaining ones.
proof fn lemma_group_rest_multiset(s: Seq<WordV>, cur: Seq<WordV>, refc: int, thr: int)
    ensures
        flatten_words(spec_group_rest(s, cur, refc, thr)).to_multiset() == cur.to_multiset().add(
            s.to_multiset(),
        ),
    decreases s.len(),
{
    if s.len() == 0 {
        let rows = spec_group_rest(s, cur, refc, thr);
        assert(rows == seq![spec_sort(cur, false)]);
        assert(rows[0] == spec_sort(cur, false));
        assert(rows.len() == 1);
        assert(rows.drop_first().len() == 0);
        assert(rows.drop_first() =~= Seq::<Seq<WordV>>::empty());
        assert(flatten_words(rows.drop_first()) == Seq::<WordV>::empty());
        assert(rows[0] + Seq::<WordV>::empty() =~= rows[0]);
        assert(flatten_words(rows) =~= spec_sort(cur, false));
        lemma_sort_permutes(cur, false);
        assert(s.to_multiset() =~= Multiset::<WordV>::empty());
        assert(cur.to_multiset().add(s.to_multiset()) =~= cur.to_multiset());
    } else if crate::rows::center_dist(crate::words::c2(s[0]), refc) <= thr {
        lemma_group_rest_multiset(s.drop_first(), cur.push(s[0]), refc, thr);
        assert(s.drop_first().to_multiset() == s.to_multiset().remove(s[0])) by {
            assert(s.remove(0) =~= s.drop_first());
        }
        assert(s.to_multiset().count(s[0]) > 0) by {
            assert(s.contains(s[0]));
        }
        assert(cur.push(s[0]).to_multiset().add(s.drop_first().to_multiset()) =~= cur.to_multiset(
        ).add(s.to_multiset()));
    } else {
        lemma_group_rest_multiset(s.drop_first(), seq![s[0]], crate::words::c2(s[0]), thr);
        let closed = spec_sort(cur, false);
        let rest = spec_group_rest(s.drop_first(), seq![s[0]], crate::words::c2(s[0]), thr);
        let rows = seq![closed] + rest;
        assert(spec_group_rest(s, cur, refc, thr) == rows);
        assert(rows[0] == closed);
        assert(rows.drop_first() =~= rest);
        assert(flatten_words(rows) == closed + flatten_words(rest));
        lemma_concat_multiset(closed, flatten_words(rest));
        lemma_sort_permutes(cur, false);
        assert(seq![s[0]] =~= Seq::<WordV>::empty().push(s[0]));
        assert(Seq::<WordV>::empty().to_multiset() =~= Multiset::<WordV>::empty());
        assert(s.drop_first().to_multiset() == s.to_multiset().remove(s[0])) by {
            assert(s.remove(0) =~= s.drop_first());
        }
        assert(s.to_multiset().count(s[0]) > 0) by {
            assert(s.contains(s[0]));
        }
        assert(closed.to_multiset().add(
            Multiset::<WordV>::empty().insert(s[0]).add(s.drop_first().to_multiset()),
        ) =~= cur.to_multiset().add(s.to_multiset()));
    }
}

/// Unit coverage through row grouping: the rows recovered from a word
/// list hold exactly the input words — none dropped, none duplicated.
pub proof fn lemma_rows_cover_units(ws: Seq<WordV>, thr: int)
    ensures
        flatten_words(spec_group_into_rows(ws, thr)).to_multiset() == ws.to_multiset(),
{
    let sorted = spec_sort(ws, true);
    lemma_sort_permutes(ws, true);
    if sorted.len() == 0 {
        assert(spec_group(sorted, thr) == Seq::<Seq<WordV>>::empty());
        assert(flatten_words(spec_group(sorted, thr)) =~= Seq::<WordV>::empty());
        assert(ws.to_multiset().len() == ws.len());
        assert(Seq::<WordV>::empty().to_multiset() =~= Multiset::<WordV>::empty());
        assert(ws.to_multiset() =~= Multiset::<WordV>::empty());
    } else {
        lemma_group_rest_multiset(
            sorted.drop_first(),
            seq![sorted[0]],
            crate::words::c2(sorted[0]),
            thr,
        );
        assert(seq![sorted[0]] =~= Seq::<WordV>::empty().push(sorted[0]));
        assert(Seq::<WordV>::empty().to_multiset() =~= Multiset::<WordV>::empty());
        assert(sorted.drop_first().to_multiset() == sorted.to_multiset().remove(sorted[0])) by {
            assert(sorted.remove(0) =~= sorted.drop_first());
        }
        assert(sorted.to_multiset().count(sorted[0]) > 0) by {
            assert(sorted.contains(sorted[0]));
        }
        assert(Multiset::<WordV>::empty().insert(sorted[0]).add(sorted.drop_first().to_multiset())
            =~= sorted.to_multiset());
    }
}

/// Split counts are never negative.
proof fn lemma_count_before_nonneg(splits: Seq<int>, c2x: int)
    ensures
        0 <= spec_count_before(splits, c2x) <= splits.len(),
    decreases splits.len(),
{
    if splits.len() > 0 {
        lemma_count_before_nonneg(splits.drop_last(), c2x);
    }
}

/// Every word's column bin is a real bin.
pub proof fn lemma_col_in_range(w: WordV, splits: Seq<int>, num_cols: int)
    requires
        num_cols >= 1,
    ensures
        0 <= spec_col_of(w, splits, num_cols) < num_cols,
{
    lemma_count_before_nonneg(splits, crate::words::cx2(w));
}

/// Total number of word texts over the first `upto` cells of one row.
pub open spec fn spec_cells_count(row: Seq<WordV>, splits: Seq<int>, num_cols: int, upto: int) -> int
    decreases upto,
{
    if upto <= 0 {
        0
    } else {
        spec_cells_count(row, splits, num_cols, upto - 1) + spec_cell_texts(
            row,
            splits,
            num_cols,
            upto - 1,
        ).len()
    }
}

/// Appending one word grows exactly the cell of its bin.
proof fn lemma_cells_count_push(
    row: Seq<WordV>,
    w: WordV,
    splits: Seq<int>,
    num_cols: int,
    upto: int,
)
    ensures
        spec_cells_count(row.push(w), splits, num_cols, upto) == spec_cells_count(
            row,
            splits,
            num_cols,
            upto,
        ) + if 0 <= spec_col_of(w, splits, num_cols) < upto {
            1int
        } else {
            0int
        },
    decreases upto,
{
    if upto > 0 {
        lemma_cells_count_push(row, w, splits, num_cols, upto - 1);
        assert(row.push(w).drop_last() =~= row);
        assert(spec_cell_texts(row.push(w), splits, num_cols, upto - 1) == if spec_col_of(
            w,
            splits,
            num_cols,
        ) == upto - 1 {
            spec_cell_texts(row, splits, num_cols, upto - 1).push(w.text)
        } else {
            spec_cell_texts(row, splits, num_cols, upto - 1)
        });
    }
}

/// Unit coverage through cell assignment: the cells of one row hold
/// exactly as many word texts as the row has words — every word lands in
/// exactly one of the `num_cols` cells.
pub proof fn lemma_cells_partition_row(row: Seq<WordV>, splits: Seq<int>, num_cols: int)
    requires
        num_cols >= 1,
    ensures
        spec_cells_count(row, splits, num_cols, num_cols) == row.len(),
    decreases row.len(),
{
    if row.len() == 0 {
        assert(row =~= Seq::<WordV>::empty());
        lemma_cells_count_empty(splits, num_cols, num_cols);
    } else {
        lemma_cells_partition_row(row.drop_last(), splits, num_cols);
        lemma_col_in_range(row.last(), splits, num_cols);
        lemma_cells_count_push(row.drop_last(), row.last(), splits, num_cols, num_cols);
        assert(row.drop_last().push(row.last()) =~= row);
    }
}

/// An empty row has empty cells.
proof fn lemma_cells_count_empty(splits: Seq<int>, num_cols: int, upto: int)
    ensures
        spec_cells_count(Seq::<WordV>::empty(), splits, num_cols, upto) == 0,
    decreases upto,
{
    if upto > 0 {
        lemma_cells_count_empty(splits, num_cols, upto - 1);
    }
}

/// Column-count uniformity, geometric strategy: every row of a built grid
/// has the same number of cells, one more than there are splits.
pub proof fn lemma_uniform_columns(ws: Seq<WordV>, thr: int, gap: int)
    ensures
        forall|i: int|
            0 <= i < spec_build_grid(ws, thr, gap).len() ==> (#[trigger] spec_build_grid(
                ws,
                thr,
                gap,
            )[i]).len() == crate::splits::spec_detect_splits(
                spec_group_into_rows(ws, thr),
                gap,
            ).len() + 1,
{
    let rows = spec_group_into_rows(ws, thr);
    let splits = crate::splits::spec_detect_splits(rows, gap);
    assert forall|i: int| 0 <= i < spec_build_grid(ws, thr, gap).len() implies (
    #[trigger] spec_build_grid(ws, thr, gap)[i]).len() == splits.len() + 1 by {
        assert(spec_build_grid(ws, thr, gap)[i] == spec_assign(
            rows[i],
            splits,
            splits.len() as int + 1,
        ));
    }
}

/// A slice under the splits from `i` on yields one cell per remaining
/// split, plus the final piece.
proof fn lemma_slice_cells_len(p: Seq<char>, splits: Seq<int>, i: int, prev: int)
    requires
        0 <= i <= splits.len(),
    ensures
        spec_slice_cells(p, splits, i, prev).len() == splits.len() - i + 1,
    decreases splits.len() - i,
{
    if i < splits.len() {
        let b = crate::lines::spec_clamp(splits[i], prev, p.len() as int);
        lemma_slice_cells_len(p, splits, i + 1, b);
    }
}

/// Column-count uniformity, whitespace strategy: every row of a grid
/// built from lines has the same number of cells, one more than there are
/// splits.
pub proof fn lemma_uniform_columns_lines(ls: Seq<Seq<char>>)
    ensures
        forall|i: int|
            0 <= i < spec_build_grid_lines(ls).len() ==> (#[trigger] spec_build_grid_lines(
                ls,
            )[i]).len() == crate::splits::spec_scan(
                crate::lines::spec_line_cands(ls),
                crate::lines::MIN_CHAR_GAP as int,
                0,
            ).len() + 1,
{
    let splits = crate::splits::spec_scan(
        crate::lines::spec_line_cands(ls),
        crate::lines::MIN_CHAR_GAP as int,
        0,
    );
    if ls.len() > 0 {
        let target = crate::lines::spec_max_len(ls);
        assert forall|i: int| 0 <= i < spec_build_grid_lines(ls).len() implies (
        #[trigger] spec_build_grid_lines(ls)[i]).len() == splits.len() + 1 by {
            assert(spec_build_grid_lines(ls)[i] == spec_slice_cells(
                crate::lines::spec_pad(ls[i], target),
                splits,
                0,
                0,
            ));
            lemma_slice_cells_len(crate::lines::spec_pad(ls[i], target), splits, 0, 0);
        }
    }
}

/// Unit coverage end to end: for any word list, the rows the pipeline
/// groups hold exactly the input words, and within every row each word's
/// text goes to exactly one of the grid's cells — no unit is dropped or
/// duplicated on the way into the grid.
pub proof fn lemma_grid_covers_units(ws: Seq<WordV>, thr: int, gap: int)
    ensures
        flatten_words(spec_group_into_rows(ws, thr)).to_multiset() == ws.to_multiset(),
        forall|i: int|
            #![trigger spec_group_into_rows(ws, thr)[i]]
            0 <= i < spec_group_into_rows(ws, thr).len() ==> spec_cells_count(
                spec_group_into_rows(ws, thr)[i],
                crate::splits::spec_detect_splits(spec_group_into_rows(ws, thr), gap),
                crate::splits::spec_detect_splits(spec_group_into_rows(ws, thr), gap).len() as int
                    + 1,
                crate::splits::spec_detect_splits(spec_group_into_rows(ws, thr), gap).len() as int
                    + 1,
            ) == spec_group_into_rows(ws, thr)[i].len(),
{
    lemma_rows_cover_units(ws, thr);
    let rows = spec_group_into_rows(ws, thr);
    let splits = crate::splits::spec_detect_splits(rows, gap);
    assert forall|i: int| 0 <= i < rows.len() implies spec_cells_count(
        #[trigger] rows[i],
        splits,
        splits.len() as int + 1,
        splits.len() as int + 1,
    ) == rows[i].len() by {
        lemma_cells_partition_row(rows[i], splits, splits.len() as int + 1);
    }
}

/// Determinism: the grid is a function of the region's content alone, so
/// identical inputs yield identical grids on every invocation — the
/// executable pipeline promises exactly `spec_reconstruct` of its input.
pub proof fn lemma_reconstruct_deterministic(first: RegionContent, second: RegionContent)
    requires
        first == second,
    ensures
        spec_reconstruct(first) == spec_reconstruct(second),
{
}

/// Empty input yields an empty grid under either strategy.
pub proof fn lemma_empty_grid(thr: int, gap: int)
    ensures
        spec_build_grid(Seq::<WordV>::empty(), thr, gap) == Seq::<Seq<Seq<char>>>::empty(),
        spec_build_grid_lines(Seq::<Seq<char>>::empty()) == Seq::<Seq<Seq<char>>>::empty(),
{
    let rows = spec_group_into_rows(Seq::<WordV>::empty(), thr);
    assert(spec_sort(Seq::<WordV>::empty(), true) == Seq::<WordV>::empty());
    assert(rows == Seq::<Seq<WordV>>::empty());
    assert(spec_grid(rows, crate::splits::spec_detect_splits(rows, gap)) =~= Seq::<
        Seq<Seq<char>>,
    >::empty());
}

} // verus!
