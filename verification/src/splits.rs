//! Column gap detection, geometric strategy.
//!
//! Over the horizontal span of all words, a per-position coverage count says
//! how many rows have any word overlapping that position. Positions covered
//! by at most a fifth of the rows are gap candidates; a maximal run of
//! candidates at least `gap_threshold` wide marks a column boundary at its
//! midpoint. The run scanner is shared with the whitespace strategy.

use vstd::prelude::*;
use crate::words::{Word, WordV, wv, rv, ints, lemma_ints_push};

verus! {

/// Minimum horizontal coordinate (`left`) and maximum (`right`) over the
/// words of one row; `None` for an empty row.
pub open spec fn spec_row_extremes(row: Seq<WordV>) -> Option<(int, int)>
    decreases row.len(),
{
    if row.len() == 0 {
        None
    } else {
        let w = row.last();
        match spec_row_extremes(row.drop_last()) {
            None => Some((w.left, w.right)),
            Some(p) => Some(
                (vstd::math::min(p.0, w.left), vstd::math::max(p.1, w.right)),
            ),
        }
    }
}

/// Minimum `left` and maximum `right` over all words of all rows; `None`
/// when no row holds a word.
pub open spec fn spec_extremes(rows: Seq<Seq<WordV>>) -> Option<(int, int)>
    decreases rows.len(),
{
    if rows.len() == 0 {
        None
    } else {
        let rest = spec_extremes(rows.drop_last());
        let last = spec_row_extremes(rows.last());
        match (rest, last) {
            (None, e) => e,
            (e, None) => e,
            (Some(p), Some(q)) => Some(
                (vstd::math::min(p.0, q.0), vstd::math::max(p.1, q.1)),
            ),
        }
    }
}

/// Whether some word of `row` overlaps position `p` of the histogram whose
/// origin is `m`: its span `[left - m, right - m]` contains `p`.
pub open spec fn spec_row_covers(row: Seq<WordV>, m: int, p: int) -> bool
    decreases row.len(),
{
    if row.len() == 0 {
        false
    } else {
        spec_row_covers(row.drop_last(), m, p) || (row.last().left - m <= p <= row.last().right
            - m)
    }
}

/// Number of rows with any word overlapping position `p`.
pub open spec fn spec_coverage(rows: Seq<Seq<WordV>>, m: int, p: int) -> int
    decreases rows.len(),
{
    if rows.len() == 0 {
        0
    } else {
        spec_coverage(rows.drop_last(), m, p) + if spec_row_covers(rows.last(), m, p) {
            1int
        } else {
            0int
        }
    }
}

/// Ceiling of `n / 5`: the largest row count that still counts as a gap,
/// one fifth of the rows rounded up.
pub open spec fn spec_mincov(n: int) -> int {
    n / 5 + if n % 5 == 0 {
        0int
    } else {
        1int
    }
}

/// The run scanner over gap candidates, from position `i` in state
/// (`in_gap`, `gap_start`): each maximal candidate run closed by a
/// non-candidate and at least `min_w` wide yields a split at
/// `off + start + width / 2`. A run still open at the end of the
/// sequence yields nothing, as it borders the data's edge.
pub open spec fn spec_scan_from(
    c: Seq<bool>,
    i: int,
    in_gap: bool,
    gap_start: int,
    min_w: int,
    off: int,
) -> Seq<int>
    decreases c.len() - i,
{
    if i < 0 || i >= c.len() {
        Seq::empty()
    } else if c[i] && !in_gap {
        spec_scan_from(c, i + 1, true, i, min_w, off)
    } else if !c[i] && in_gap {
        let w = i - gap_start;
        let rest = spec_scan_from(c, i + 1, false, 0, min_w, off);
        if w >= min_w {
            seq![off + gap_start + w / 2] + rest
        } else {
            rest
        }
    } else {
        spec_scan_from(c, i + 1, in_gap, gap_start, min_w, off)
    }
}

/// The splits of a candidate sequence: the scanner started at the origin.
pub open spec fn spec_scan(c: Seq<bool>, min_w: int, off: int) -> Seq<int> {
    spec_scan_from(c, 0, false, 0, min_w, off)
}

/// The split positions detected for a row sequence: gap candidate runs of
/// the coverage histogram, at least `gap_thr` wide, each contributing its
/// midpoint in original coordinates.
pub open spec fn spec_detect_splits(rows: Seq<Seq<WordV>>, gap_thr: int) -> Seq<int> {
    match spec_extremes(rows) {
        None => Seq::empty(),
        Some(e) => {
            let width = e.1 - e.0;
            if width <= 0 {
                Seq::empty()
            } else {
                let cands = Seq::new(
                    (width + 1) as nat,
                    |p: int| spec_coverage(rows, e.0, p) <= spec_mincov(rows.len() as int),
                );
                spec_scan(cands, gap_thr, e.0)
            }
        },
    }
}

/// Least `left` and greatest `right` within one row.
fn row_extremes(row: &Vec<Word>) -> (r: Option<(u32, u32)>)
    ensures
        spec_row_extremes(wv(row@)) == match r {
            None => None::<(int, int)>,
            Some(p) => Some((p.0 as int, p.1 as int)),
        },
{
    let mut acc: Option<(u32, u32)> = None;
    let mut j: usize = 0;
    while j < row.len()
        invariant
            j <= row@.len(),
            spec_row_extremes(wv(row@).take(j as int)) == match acc {
                None => None::<(int, int)>,
                Some(p) => Some((p.0 as int, p.1 as int)),
            },
        decreases row@.len() - j,
    {
        let w = &row[j];
        proof {
            assert(wv(row@).take(j + 1).drop_last() =~= wv(row@).take(j as int));
            assert(wv(row@).take(j + 1).last() == row@[j as int]@);
        }
        acc = match acc {
            None => Some((w.left, w.right)),
            Some(p) => Some(
                (if w.left < p.0 { w.left } else { p.0 }, if w.right > p.1 { w.right } else { p.1 }),
            ),
        };
        j += 1;
    }
    proof {
        assert(wv(row@).take(row@.len() as int) =~= wv(row@));
    }
    acc
}

/// Least `left` and greatest `right` over all rows.
fn extremes(rows: &Vec<Vec<Word>>) -> (r: Option<(u32, u32)>)
    ensures
        spec_extremes(rv(rows@)) == match r {
            None => None::<(int, int)>,
            Some(p) => Some((p.0 as int, p.1 as int)),
        },
{
    let mut acc: Option<(u32, u32)> = None;
    let mut a: usize = 0;
    while a < rows.len()
        invariant
            a <= rows@.len(),
            spec_extremes(rv(rows@).take(a as int)) == match acc {
                None => None::<(int, int)>,
                Some(p) => Some((p.0 as int, p.1 as int)),
            },
        decreases rows@.len() - a,
    {
        let e = row_extremes(&rows[a]);
        proof {
            assert(rv(rows@).take(a + 1).drop_last() =~= rv(rows@).take(a as int));
            assert(rv(rows@).take(a + 1).last() == wv(rows@[a as int]@));
        }
        acc = match (acc, e) {
            (None, x) => x,
            (x, None) => x,
            (Some(p), Some(q)) => Some(
                (if q.0 < p.0 { q.0 } else { p.0 }, if q.1 > p.1 { q.1 } else { p.1 }),
            ),
        };
        a += 1;
    }
    proof {
        assert(rv(rows@).take(rows@.len() as int) =~= rv(rows@));
    }
    acc
}

/// Whether some word of `row` overlaps histogram position `p`.
fn row_covers(row: &Vec<Word>, m: u32, p: u64) -> (r: bool)
    requires
        p <= u32::MAX as u64 + 1,
    ensures
        r == spec_row_covers(wv(row@), m as int, p as int),
{
    let mut found = false;
    let mut j: usize = 0;
    while j < row.len()
        invariant
            j <= row@.len(),
            p <= u32::MAX as u64 + 1,
            found == spec_row_covers(wv(row@).take(j as int), m as int, p as int),
        decreases row@.len() - j,
    {
        let w = &row[j];
        proof {
            assert(wv(row@).take(j + 1).drop_last() =~= wv(row@).take(j as int));
            assert(wv(row@).take(j + 1).last() == row@[j as int]@);
        }
        let target = m as u64 + p;
        if w.left as u64 <= target && target <= w.right as u64 {
            found = true;
        }
        j += 1;
    }
    proof {
        assert(wv(row@).take(row@.len() as int) =~= wv(row@));
    }
    found
}

/// Number of rows with any word overlapping histogram position `p`.
fn coverage_at(rows: &Vec<Vec<Word>>, m: u32, p: u64) -> (r: u64)
    requires
        p <= u32::MAX as u64 + 1,
    ensures
        r == spec_coverage(rv(rows@), m as int, p as int),
{
    let mut cnt: u64 = 0;
    let mut a: usize = 0;
    while a < rows.len()
        invariant
            a <= rows@.len(),
            p <= u32::MAX as u64 + 1,
            cnt == spec_coverage(rv(rows@).take(a as int), m as int, p as int),
            cnt <= a,
        decreases rows@.len() - a,
    {
        let c = row_covers(&rows[a], m, p);
        proof {
            assert(rv(rows@).take(a + 1).drop_last() =~= rv(rows@).take(a as int));
            assert(rv(rows@).take(a + 1).last() == wv(rows@[a as int]@));
        }
        if c {
            cnt += 1;
        }
        a += 1;
    }
    proof {
        assert(rv(rows@).take(rows@.len() as int) =~= rv(rows@));
    }
    cnt
}

/// Scans a gap-candidate sequence for maximal runs at least `min_width`
/// wide, each closed by a non-candidate; a qualifying run starting at `s`
/// of width `w` yields the split `offset + s + w / 2`. Splits come out in
/// strictly increasing order of position.
pub fn scan_runs(cands: &Vec<bool>, min_width: u64, offset: u32) -> (r: Vec<u64>)
    requires
        offset + cands@.len() <= u64::MAX,
    ensures
        ints(r@) == spec_scan(cands@, min_width as int, offset as int),
{
    broadcast use lemma_ints_push;

    let mut splits: Vec<u64> = Vec::new();
    let mut in_gap = false;
    let mut gap_start: usize = 0;
    let mut i: usize = 0;
    proof {
        assert(ints(splits@) =~= Seq::<int>::empty());
    }
    while i < cands.len()
        invariant
            i <= cands@.len(),
            offset + cands@.len() <= u64::MAX,
            in_gap ==> gap_start <= i,
            ints(splits@) + spec_scan_from(
                cands@,
                i as int,
                in_gap,
                gap_start as int,
                min_width as int,
                offset as int,
            ) == spec_scan(cands@, min_width as int, offset as int),
        decreases cands@.len() - i,
    {
        let c = cands[i];
        if c && !in_gap {
            in_gap = true;
            gap_start = i;
        } else if !c && in_gap {
            in_gap = false;
            let w = (i - gap_start) as u64;
            if w >= min_width {
                let ghost pre = splits@;
                let v = offset as u64 + gap_start as u64 + w / 2;
                splits.push(v);
                proof {
                    assert(v as int == offset + gap_start + (i - gap_start) / 2);
                    assert((ints(pre) + (seq![v as int] + spec_scan_from(
                        cands@,
                        i + 1,
                        false,
                        0,
                        min_width as int,
                        offset as int,
                    ))) =~= (ints(pre).push(v as int) + spec_scan_from(
                        cands@,
                        i + 1,
                        false,
                        0,
                        min_width as int,
                        offset as int,
                    )));
                }
            }
            gap_start = 0;
        }
        i += 1;
    }
    splits
}

/// Detects column boundaries for a row sequence. `gap_threshold` is the
/// minimum pixel width of a qualifying gap. Returns the split positions in
/// strictly increasing order; empty when the rows hold no word, span no
/// width, or show no qualifying gap.
pub fn detect_column_splits(rows: &Vec<Vec<Word>>, gap_threshold: u64) -> (r: Vec<u64>)
    ensures
        ints(r@) == spec_detect_splits(rv(rows@), gap_threshold as int),
{
    let e = extremes(rows);
    match e {
        None => {
            let r: Vec<u64> = Vec::new();
            proof {
                assert(ints(r@) =~= Seq::<int>::empty());
            }
            r
        },
        Some((m, mx)) => {
            if mx <= m {
                let r: Vec<u64> = Vec::new();
                proof {
                    assert(ints(r@) =~= Seq::<int>::empty());
                }
                return r;
            }
            let width: u32 = mx - m;
            let n = rows.len() as u64;
            let mincov: u64 = n / 5 + if n % 5 == 0 {
                0
            } else {
                1
            };
            assert(mincov as int == spec_mincov(rows@.len() as int));
            let mut cands: Vec<bool> = Vec::new();
            let mut p: u64 = 0;
            while p <= width as u64
                invariant
                    p <= width as u64 + 1,
                    cands@.len() == p,
                    mincov as int == spec_mincov(rows@.len() as int),
                    forall|q: int|
                        0 <= q < p ==> cands@[q] == (spec_coverage(rv(rows@), m as int, q)
                            <= spec_mincov(rows@.len() as int)),
                decreases width as u64 + 1 - p,
            {
                let cov = coverage_at(rows, m, p);
                cands.push(cov <= mincov);
                p += 1;
            }
            let ghost candspec = Seq::new(
                (mx - m + 1) as nat,
                |q: int| spec_coverage(rv(rows@), m as int, q) <= spec_mincov(rows@.len() as int),
            );
            proof {
                assert(cands@ =~= candspec);
            }
            scan_runs(&cands, gap_threshold, m)
        },
    }
}

} // verus!
