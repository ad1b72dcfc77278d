//! Column gap detection and cell slicing for line-only input, the
//! whitespace strategy.
//!
//! Every line is padded with trailing spaces to the longest line's length.
//! A character column is a gap column exactly when every padded line holds
//! a space there; a maximal run of gap columns at least two wide marks a
//! boundary at its midpoint index. Cells are the padded line sliced at the
//! split indices, trimmed of surrounding spaces. A gap run at the right
//! margin marks no boundary, as no column follows it. This strategy serves
//! when the OCR backend exposes no per-word geometry; a single stray
//! character anywhere in a column blocks that boundary for the whole
//! region.

use vstd::prelude::*;
use crate::words::{sv, gv, ints, lemma_gv_push};
use crate::splits::{spec_scan, scan_runs};

verus! {

/// Minimum width, in character columns, of a qualifying gap run.
pub const MIN_CHAR_GAP: u64 = 2;

/// Index of the first character that is not a space; the length when all
/// are spaces.
pub open spec fn spec_first_ns(s: Seq<char>) -> int
    decreases s.len(),
{
    if s.len() == 0 {
        0
    } else if s[0] != ' ' {
        0
    } else {
        1 + spec_first_ns(s.drop_first())
    }
}

/// Index of the last character that is not a space; `-1` when all are
/// spaces.
pub open spec fn spec_last_ns(s: Seq<char>) -> int
    decreases s.len(),
{
    if s.len() == 0 {
        -1
    } else if s.last() != ' ' {
        s.len() - 1
    } else {
        spec_last_ns(s.drop_last())
    }
}

/// The sequence without its leading and trailing spaces.
pub open spec fn spec_trim(s: Seq<char>) -> Seq<char> {
    if spec_first_ns(s) == s.len() {
        Seq::empty()
    } else {
        s.subrange(spec_first_ns(s), spec_last_ns(s) + 1)
    }
}

/// The sequence padded with trailing spaces to length `target`.
pub open spec fn spec_pad(s: Seq<char>, target: int) -> Seq<char>
    recommends
        s.len() <= target,
{
    s + Seq::new((target - s.len()) as nat, |i: int| ' ')
}

/// Length of the longest line; `0` for no lines.
pub open spec fn spec_max_len(ls: Seq<Seq<char>>) -> int
    decreases ls.len(),
{
    if ls.len() == 0 {
        0
    } else {
        vstd::math::max(spec_max_len(ls.drop_last()), ls.last().len() as int)
    }
}

/// Whether character column `c` is a space in every line, lines shorter
/// than `c` counting as space there.
pub open spec fn spec_is_gap_col(ls: Seq<Seq<char>>, c: int) -> bool
    decreases ls.len(),
{
    if ls.len() == 0 {
        true
    } else {
        spec_is_gap_col(ls.drop_last(), c) && (c >= ls.last().len() || ls.last()[c] == ' ')
    }
}

/// The gap-column candidates of a line sequence, one per character column
/// of the longest line.
pub open spec fn spec_line_cands(ls: Seq<Seq<char>>) -> Seq<bool> {
    Seq::new(spec_max_len(ls) as nat, |c: int| spec_is_gap_col(ls, c))
}

/// `x` clamped into `[lo, hi]`.
pub open spec fn spec_clamp(x: int, lo: int, hi: int) -> int {
    if x < lo {
        lo
    } else if x > hi {
        hi
    } else {
        x
    }
}

/// The cells of a padded line under the splits from index `i` on, the
/// previous cut standing at `prev`: each split cuts at its index clamped
/// into `[prev, len]`, and every piece is trimmed.
pub open spec fn spec_slice_cells(p: Seq<char>, splits: Seq<int>, i: int, prev: int) -> Seq<
    Seq<char>,
>
    decreases splits.len() - i,
{
    if i < 0 || i >= splits.len() {
        seq![spec_trim(p.subrange(prev, p.len() as int))]
    } else {
        let b = spec_clamp(splits[i], prev, p.len() as int);
        seq![spec_trim(p.subrange(prev, b))] + spec_slice_cells(p, splits, i + 1, b)
    }
}

/// The whitespace-strategy grid of a line sequence: lines padded to the
/// longest length, split at the midpoints of all-space column runs at
/// least `MIN_CHAR_GAP` wide, each slice trimmed. Every line yields one
/// row of `splits + 1` cells; no lines yield an empty grid.
pub open spec fn spec_build_grid_lines(ls: Seq<Seq<char>>) -> Seq<Seq<Seq<char>>> {
    if ls.len() == 0 {
        Seq::empty()
    } else {
        let target = spec_max_len(ls);
        let splits = spec_scan(spec_line_cands(ls), MIN_CHAR_GAP as int, 0);
        ls.map_values(|l: Seq<char>| spec_slice_cells(spec_pad(l, target), splits, 0, 0))
    }
}

/// A sequence whose first `i` characters are spaces, and whose character
/// at `i` (if any) is not, has its first non-space at `i`.
proof fn lemma_first_ns_at(s: Seq<char>, i: int)
    requires
        0 <= i <= s.len(),
        forall|k: int| 0 <= k < i ==> s[k] == ' ',
        i == s.len() || s[i] != ' ',
    ensures
        spec_first_ns(s) == i,
    decreases i,
{
    if i == 0 {
    } else {
        assert(s[0] == ' ');
        assert forall|k: int| 0 <= k < i - 1 implies s.drop_first()[k] == ' ' by {
            assert(s.drop_first()[k] == s[k + 1]);
        }
        assert(i - 1 == s.drop_first().len() || s.drop_first()[i - 1] != ' ');
        lemma_first_ns_at(s.drop_first(), i - 1);
    }
}

/// A sequence whose characters from `j` on are spaces, and whose character
/// at `j - 1` is not, has its last non-space at `j - 1`.
proof fn lemma_last_ns_at(s: Seq<char>, j: int)
    requires
        1 <= j <= s.len(),
        s[j - 1] != ' ',
        forall|k: int| j <= k < s.len() ==> s[k] == ' ',
    ensures
        spec_last_ns(s) == j - 1,
    decreases s.len(),
{
    if j == s.len() {
        assert(s.last() == s[s.len() - 1]);
    } else {
        assert(s.last() == ' ');
        assert forall|k: int| j <= k < s.drop_last().len() implies s.drop_last()[k] == ' ' by {
            assert(s.drop_last()[k] == s[k]);
        }
        assert(s.drop_last()[j - 1] == s[j - 1]);
        lemma_last_ns_at(s.drop_last(), j);
    }
}

/// An all-space sequence has no first non-space.
proof fn lemma_first_ns_all_space(s: Seq<char>)
    requires
        forall|k: int| 0 <= k < s.len() ==> s[k] == ' ',
    ensures
        spec_first_ns(s) == s.len(),
    decreases s.len(),
{
    lemma_first_ns_at(s, s.len() as int);
}

/// Every line is at most the longest length.
pub proof fn lemma_max_len_ge(ls: Seq<Seq<char>>, k: int)
    requires
        0 <= k < ls.len(),
    ensures
        ls[k].len() <= spec_max_len(ls),
    decreases ls.len(),
{
    if k == ls.len() - 1 {
        assert(ls.last() == ls[k]);
    } else {
        assert(ls.drop_last()[k] == ls[k]);
        lemma_max_len_ge(ls.drop_last(), k);
    }
}

/// Character length of a string.
fn line_len(s: &String) -> (n: usize)
    ensures
        n == s@.len(),
{
    s.as_str().unicode_len()
}

/// The copy of `s` without its leading and trailing spaces.
pub fn trim_str(s: &str) -> (r: String)
    ensures
        r@ == spec_trim(s@),
{
    let n = s.unicode_len();
    let mut i: usize = 0;
    while i < n && s.get_char(i) == ' '
        invariant
            i <= n,
            n == s@.len(),
            forall|k: int| 0 <= k < i ==> s@[k] == ' ',
        decreases n - i,
    {
        i += 1;
    }
    if i == n {
        proof {
            lemma_first_ns_all_space(s@);
        }
        let r = String::new();
        return r;
    }
    proof {
        lemma_first_ns_at(s@, i as int);
    }
    let mut j: usize = n;
    while j > i && s.get_char(j - 1) == ' '
        invariant
            i <= j <= n,
            n == s@.len(),
            i < n,
            s@[i as int] != ' ',
            forall|k: int| j <= k < n ==> s@[k] == ' ',
        decreases j,
    {
        j -= 1;
    }
    proof {
        if j == i {
            assert(s@[i as int] == ' ');
        }
        lemma_last_ns_at(s@, j as int);
    }
    let piece = s.substring_char(i, j);
    piece.to_owned()
}

/// The line padded with trailing spaces to `target` characters.
fn pad_line(line: &String, target: usize) -> (r: String)
    requires
        line@.len() <= target,
    ensures
        r@ == spec_pad(line@, target as int),
{
    let mut r = line.clone();
    let mut n = line_len(line);
    proof {
        reveal_strlit(" ");
        assert(spec_pad(line@, n as int) =~= line@);
    }
    while n < target
        invariant
            line@.len() <= n <= target,
            " "@ == seq![' '],
            r@ == spec_pad(line@, n as int),
        decreases target - n,
    {
        r.append(" ");
        proof {
            assert(spec_pad(line@, n + 1) =~= spec_pad(line@, n as int) + seq![' ']);
        }
        n += 1;
    }
    r
}

/// Length of the longest line.
fn max_len(lines: &Vec<String>) -> (r: usize)
    ensures
        r == spec_max_len(sv(lines@)),
{
    let mut r: usize = 0;
    let mut k: usize = 0;
    while k < lines.len()
        invariant
            k <= lines@.len(),
            r == spec_max_len(sv(lines@).take(k as int)),
        decreases lines@.len() - k,
    {
        proof {
            assert(sv(lines@).take(k + 1).drop_last() =~= sv(lines@).take(k as int));
            assert(sv(lines@).take(k + 1).last() == lines@[k as int]@);
        }
        let n = line_len(&lines[k]);
        if n > r {
            r = n;
        }
        k += 1;
    }
    proof {
        assert(sv(lines@).take(lines@.len() as int) =~= sv(lines@));
    }
    r
}

/// Whether column `c` is a space (or past the end) in every line.
fn is_gap_col(lines: &Vec<String>, c: usize) -> (r: bool)
    ensures
        r == spec_is_gap_col(sv(lines@), c as int),
{
    let mut r = true;
    let mut k: usize = 0;
    while k < lines.len()
        invariant
            k <= lines@.len(),
            r == spec_is_gap_col(sv(lines@).take(k as int), c as int),
        decreases lines@.len() - k,
    {
        proof {
            assert(sv(lines@).take(k + 1).drop_last() =~= sv(lines@).take(k as int));
            assert(sv(lines@).take(k + 1).last() == lines@[k as int]@);
        }
        let line = &lines[k];
        let n = line_len(line);
        if c < n && line.as_str().get_char(c) != ' ' {
            r = false;
        }
        k += 1;
    }
    proof {
        assert(sv(lines@).take(lines@.len() as int) =~= sv(lines@));
    }
    r
}

/// The trimmed cells of one padded line under the splits from `i` on.
fn slice_cells(p: &str, splits: &Vec<u64>, i: usize, prev: usize) -> (r: Vec<String>)
    requires
        i <= splits@.len(),
        prev <= p@.len(),
    ensures
        sv(r@) == spec_slice_cells(p@, ints(splits@), i as int, prev as int),
    decreases splits@.len() - i,
{
    let n = p.unicode_len();
    if i >= splits.len() {
        let cell = trim_str(p.substring_char(prev, n));
        let mut r: Vec<String> = Vec::new();
        r.push(cell);
        proof {
            assert(sv(r@) =~= seq![spec_trim(p@.subrange(prev as int, p@.len() as int))]);
        }
        r
    } else {
        let s = splits[i];
        let b: usize = if s < prev as u64 {
            prev
        } else if s > n as u64 {
            n
        } else {
            s as usize
        };
        assert(b as int == spec_clamp(ints(splits@)[i as int], prev as int, p@.len() as int));
        let cell = trim_str(p.substring_char(prev, b));
        let ghost cellv = cell@;
        let mut rest = slice_cells(p, splits, i + 1, b);
        let ghost restv = rest@;
        rest.insert(0, cell);
        proof {
            assert(rest@ =~= seq![cell] + restv);
            assert(sv(seq![cell] + restv) =~= seq![cellv] + sv(restv));
        }
        rest
    }
}

/// Reconstructs the grid of a plain line list with the whitespace
/// strategy: one row per line, every row `splits + 1` cells wide, each
/// cell a trimmed slice of the padded line. Empty input yields an empty
/// grid.
pub fn build_grid_lines(lines: &Vec<String>) -> (g: Vec<Vec<String>>)
    ensures
        gv(g@) == spec_build_grid_lines(sv(lines@)),
        lines@.len() == 0 ==> g@.len() == 0,
{
    broadcast use lemma_gv_push;

    let ghost lsv = sv(lines@);
    if lines.len() == 0 {
        let g: Vec<Vec<String>> = Vec::new();
        proof {
            assert(gv(g@) =~= Seq::<Seq<Seq<char>>>::empty());
        }
        return g;
    }
    let target = max_len(lines);
    let mut cands: Vec<bool> = Vec::new();
    let mut c: usize = 0;
    while c < target
        invariant
            c <= target,
            target == spec_max_len(sv(lines@)),
            lsv == sv(lines@),
            cands@.len() == c,
            forall|q: int| 0 <= q < c ==> cands@[q] == spec_is_gap_col(lsv, q),
        decreases target - c,
    {
        let gc = is_gap_col(lines, c);
        cands.push(gc);
        c += 1;
    }
    proof {
        assert(cands@ =~= spec_line_cands(lsv));
    }
    let splits = scan_runs(&cands, MIN_CHAR_GAP, 0);
    let ghost spl = ints(splits@);
    let mut g: Vec<Vec<String>> = Vec::new();
    let mut k: usize = 0;
    while k < lines.len()
        invariant
            k <= lines@.len(),
            lsv == sv(lines@),
            target == spec_max_len(lsv),
            spl == ints(splits@),
            spl == spec_scan(spec_line_cands(lsv), MIN_CHAR_GAP as int, 0),
            gv(g@).len() == k,
            forall|b: int|
                0 <= b < k ==> gv(g@)[b] == spec_slice_cells(spec_pad(lsv[b], target as int), spl, 0, 0),
        decreases lines@.len() - k,
    {
        proof {
            lemma_max_len_ge(lsv, k as int);
            assert(lsv[k as int] == lines@[k as int]@);
        }
        let padded = pad_line(&lines[k], target);
        proof {
            assert(padded@.len() == target);
        }
        let cells = slice_cells(padded.as_str(), &splits, 0, 0);
        let ghost cellsv = sv(cells@);
        let ghost oldg = g@;
        g.push(cells);
        proof {
            assert(gv(g@) == gv(oldg).push(cellsv));
            assert(forall|b: int|
                0 <= b < k + 1 ==> gv(g@)[b] == spec_slice_cells(
                    spec_pad(lsv[b], target as int),
                    spl,
                    0,
                    0,
                ));
        }
        k += 1;
    }
    proof {
        assert(gv(g@) =~= spec_build_grid_lines(lsv));
    }
    g
}

} // verus!
