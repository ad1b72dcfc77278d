//! Row grouping (geometric strategy).
//!
//! Units are sorted by vertical center and clustered into rows: a unit joins
//! the current row when its doubled vertical center lies within the doubled
//! row threshold of the row's reference center, which stays fixed at the
//! center of the first unit of the row. A closed row is sorted left to right
//! by horizontal position. The fixed reference center is a deliberate
//! simplification: a row drifting vertically across its width is still kept
//! together as long as each member stays near the first one.

use vstd::prelude::*;
use crate::words::{
    Word, WordV, c2, wv, rv, center2_y, lemma_wv_push, lemma_wv_drop_last, lemma_wv_drop_first,
    lemma_rv_push,
};

verus! {

/// Absolute difference of two doubled centers.
pub open spec fn center_dist(a: int, b: int) -> int {
    if a >= b {
        a - b
    } else {
        b - a
    }
}

/// The key a word is ordered by: the doubled vertical center when grouping
/// rows, the left edge when ordering the members of one row.
pub open spec fn sort_key(w: WordV, by_center: bool) -> int {
    if by_center {
        c2(w)
    } else {
        w.left
    }
}

/// `x` inserted into `t` after every element whose key is at most the key
/// of `x`; insertion into a sorted sequence keeps it sorted and is stable.
pub open spec fn insert_sorted(t: Seq<WordV>, x: WordV, by_center: bool) -> Seq<WordV>
    decreases t.len(),
{
    if t.len() == 0 {
        seq![x]
    } else if sort_key(t.last(), by_center) <= sort_key(x, by_center) {
        t.push(x)
    } else {
        insert_sorted(t.drop_last(), x, by_center).push(t.last())
    }
}

/// Stable insertion sort of a word sequence by the chosen key.
pub open spec fn spec_sort(s: Seq<WordV>, by_center: bool) -> Seq<WordV>
    decreases s.len(),
{
    if s.len() == 0 {
        Seq::empty()
    } else {
        insert_sorted(spec_sort(s.drop_last(), by_center), s.last(), by_center)
    }
}

/// Row grouping over the units still to be placed: `cur` is the open row and
/// `refc` its reference doubled center. A unit within `thr` of the reference
/// joins the open row; otherwise the row is closed (sorted left to right)
/// and a new row opens with the unit as its reference.
pub open spec fn spec_group_rest(s: Seq<WordV>, cur: Seq<WordV>, refc: int, thr: int) -> Seq<
    Seq<WordV>,
>
    decreases s.len(),
{
    if s.len() == 0 {
        seq![spec_sort(cur, false)]
    } else if center_dist(c2(s[0]), refc) <= thr {
        spec_group_rest(s.drop_first(), cur.push(s[0]), refc, thr)
    } else {
        seq![spec_sort(cur, false)] + spec_group_rest(s.drop_first(), seq![s[0]], c2(s[0]), thr)
    }
}

/// Row grouping of a center-sorted unit sequence.
pub open spec fn spec_group(s: Seq<WordV>, thr: int) -> Seq<Seq<WordV>> {
    if s.len() == 0 {
        Seq::empty()
    } else {
        spec_group_rest(s.drop_first(), seq![s[0]], c2(s[0]), thr)
    }
}

/// The rows recovered from an unordered unit sequence: sort by vertical
/// center, then group. `thr` is in doubled length units.
pub open spec fn spec_group_into_rows(s: Seq<WordV>, thr: int) -> Seq<Seq<WordV>> {
    spec_group(spec_sort(s, true), thr)
}

/// Executable counterpart of `sort_key`.
fn sort_key_exec(w: &Word, by_center: bool) -> (r: u64)
    ensures
        r == sort_key(w@, by_center),
{
    if by_center {
        center2_y(w)
    } else {
        w.left as u64
    }
}

/// Inserts `x` into `t` from the back, past every element with a larger key.
fn insert_sorted_exec(t: Vec<Word>, x: Word, by_center: bool) -> (r: Vec<Word>)
    ensures
        wv(r@) == insert_sorted(wv(t@), x@, by_center),
    decreases t@.len(),
{
    broadcast use lemma_wv_push, lemma_wv_drop_last;

    let mut t = t;
    if t.len() == 0 {
        let mut r: Vec<Word> = Vec::new();
        r.push(x);
        proof {
            assert(wv(Seq::<Word>::empty()) =~= Seq::<WordV>::empty());
            assert(Seq::<WordV>::empty().push(x@) =~= seq![x@]);
        }
        r
    } else {
        let klast = sort_key_exec(&t[t.len() - 1], by_center);
        let kx = sort_key_exec(&x, by_center);
        let ghost t0 = t@;
        assert(klast == sort_key(wv(t@).last(), by_center));
        assert(kx == sort_key(x@, by_center));
        if klast <= kx {
            t.push(x);
            proof {
                assert(insert_sorted(wv(t0), x@, by_center) == wv(t0).push(x@));
                assert(wv(t@) == wv(t0).push(x@));
            }
            t
        } else {
            let last = t.pop().unwrap();
            proof {
                assert(t@ =~= t0.drop_last());
                assert(last == t0.last());
                assert(insert_sorted(wv(t0), x@, by_center) == insert_sorted(
                    wv(t0).drop_last(),
                    x@,
                    by_center,
                ).push(wv(t0).last()));
            }
            let mut r = insert_sorted_exec(t, x, by_center);
            r.push(last);
            proof {
                assert(wv(t0).drop_last() == wv(t0.drop_last()));
            }
            r
        }
    }
}

/// Stable insertion sort of words by the chosen key.
pub fn sort_words(words: Vec<Word>, by_center: bool) -> (r: Vec<Word>)
    ensures
        wv(r@) == spec_sort(wv(words@), by_center),
    decreases words@.len(),
{
    broadcast use lemma_wv_drop_last;

    let mut words = words;
    let ghost w0 = words@;
    if words.len() == 0 {
        let r: Vec<Word> = Vec::new();
        proof {
            assert(wv(r@) =~= Seq::<WordV>::empty());
            assert(spec_sort(wv(w0), by_center) == Seq::<WordV>::empty());
        }
        r
    } else {
        let last = words.pop().unwrap();
        proof {
            assert(words@ =~= w0.drop_last());
            assert(last == w0.last());
            assert(spec_sort(wv(w0), by_center) == insert_sorted(
                spec_sort(wv(w0).drop_last(), by_center),
                wv(w0).last(),
                by_center,
            ));
            assert(wv(w0).drop_last() == wv(w0.drop_last()));
        }
        let s = sort_words(words, by_center);
        insert_sorted_exec(s, last, by_center)
    }
}

/// Clusters words into rows by vertical proximity. `row_threshold_x2` is the
/// row threshold in doubled length units: a word joins the open row exactly
/// when the absolute difference of doubled vertical centers is at most
/// `row_threshold_x2`. Every input word lands in exactly one row; each row
/// is ordered left to right; the rows are ordered by vertical position of
/// their first member. Empty input yields no rows.
pub fn group_into_rows(words: Vec<Word>, row_threshold_x2: u64) -> (r: Vec<Vec<Word>>)
    ensures
        rv(r@) == spec_group_into_rows(wv(words@), row_threshold_x2 as int),
        words@.len() == 0 ==> r@.len() == 0,
{
    broadcast use lemma_wv_push, lemma_wv_drop_first, lemma_rv_push;

    let ghost thr = row_threshold_x2 as int;
    let mut sorted = sort_words(words, true);
    let ghost s0 = wv(sorted@);
    if sorted.len() == 0 {
        let r: Vec<Vec<Word>> = Vec::new();
        proof {
            assert(rv(r@) =~= Seq::<Seq<WordV>>::empty());
        }
        return r;
    }
    let ghost presort = sorted@;
    let first = sorted.remove(0);
    proof {
        assert(sorted@ =~= presort.drop_first());
        assert(wv(sorted@) == s0.drop_first());
        assert(first@ == s0[0]);
    }
    let mut refc: u64 = center2_y(&first);
    let mut cur: Vec<Word> = Vec::new();
    cur.push(first);
    proof {
        assert(wv(cur@) =~= seq![first@]);
    }
    let mut rows: Vec<Vec<Word>> = Vec::new();
    proof {
        assert(rv(rows@) =~= Seq::<Seq<WordV>>::empty());
        assert(rv(rows@) + spec_group_rest(wv(sorted@), wv(cur@), refc as int, thr) =~= spec_group(
            s0,
            thr,
        ));
    }
    while sorted.len() > 0
        invariant
            rv(rows@) + spec_group_rest(wv(sorted@), wv(cur@), refc as int, thr) == spec_group(
                s0,
                thr,
            ),
            refc <= u32::MAX as u64 * 2,
            thr == row_threshold_x2 as int,
        decreases sorted@.len(),
    {
        let ghost pre = sorted@;
        let ghost rem = wv(sorted@);
        let w = sorted.remove(0);
        proof {
            assert(sorted@ =~= pre.drop_first());
            assert(wv(sorted@) == rem.drop_first());
            assert(rem[0] == w@);
        }
        let c = center2_y(&w);
        let near = if c >= refc {
            c - refc <= row_threshold_x2
        } else {
            refc - c <= row_threshold_x2
        };
        assert(near == (center_dist(c2(w@), refc as int) <= thr));
        if near {
            let ghost curpre = cur@;
            cur.push(w);
            proof {
                assert(cur@ == curpre.push(w));
                assert(wv(cur@) =~= wv(curpre).push(w@));
                assert(spec_group_rest(rem, wv(curpre), refc as int, thr) == spec_group_rest(
                    rem.drop_first(),
                    wv(curpre).push(w@),
                    refc as int,
                    thr,
                ));
                assert(rv(rows@) + spec_group_rest(wv(sorted@), wv(cur@), refc as int, thr)
                    == spec_group(s0, thr));
            }
        } else {
            let ghost oldcurv = wv(cur@);
            let ghost oldrows = rows@;
            proof {
                assert(spec_group_rest(rem, oldcurv, refc as int, thr) == seq![
                    spec_sort(oldcurv, false),
                ] + spec_group_rest(rem.drop_first(), seq![w@], c2(w@), thr));
            }
            let closed = sort_words(cur, false);
            let ghost curv = wv(closed@);
            rows.push(closed);
            cur = Vec::new();
            proof {
                assert(wv(cur@) =~= Seq::<WordV>::empty());
            }
            cur.push(w);
            refc = c;
            proof {
                assert(wv(cur@) =~= seq![w@]);
                assert((rv(oldrows) + (seq![curv] + spec_group_rest(
                    wv(sorted@),
                    seq![w@],
                    c2(w@),
                    thr,
                ))) =~= (rv(oldrows).push(curv) + spec_group_rest(
                    wv(sorted@),
                    seq![w@],
                    c2(w@),
                    thr,
                )));
                assert(rv(rows@) + spec_group_rest(wv(sorted@), wv(cur@), refc as int, thr)
                    == spec_group(s0, thr));
            }
        }
    }
    let ghost oldcurv = wv(cur@);
    let ghost oldrows = rows@;
    proof {
        assert(wv(sorted@) =~= Seq::<WordV>::empty());
        assert(spec_group_rest(wv(sorted@), oldcurv, refc as int, thr) == seq![
            spec_sort(oldcurv, false),
        ]);
    }
    let closed = sort_words(cur, false);
    let ghost curv = wv(closed@);
    rows.push(closed);
    proof {
        assert((rv(oldrows) + seq![curv]) =~= rv(oldrows).push(curv));
    }
    rows
}

} // verus!
