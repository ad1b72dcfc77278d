//! Region-level processing: the strategy selector, the self-scaling
//! thresholds, the transcript parser of the OCR backend's tab-separated
//! word table, and the result types handed to callers.

use vstd::prelude::*;
use crate::words::{
    Word, WordV, RecognizedUnit, wv, sv, gv, spec_boxed_words, boxed_words, lemma_wv_push,
};
use crate::grid::{spec_build_grid, build_grid};
use crate::lines::{spec_build_grid_lines, build_grid_lines};

verus! {

/// A rectangular region of one image as the caller names it; `label` is
/// accepted but unused by the layout engine.
pub struct RegionInput {
    pub id: String,
    pub x: u32,
    pub y: u32,
    pub width: u32,
    pub height: u32,
    pub label: Option<String>,
}

/// The result of recognizing one region: the backend's unsegmented
/// transcript and the reconstructed grid of cell strings.
pub struct RegionResult {
    pub region_id: String,
    pub text: String,
    pub columns: Vec<Vec<String>>,
}

/// What the OCR backend delivered for one region: word units with
/// geometry, or plain text lines without it. The strategy follows the
/// variant: geometric grouping and the coverage histogram for units,
/// character columns for lines.
pub enum RegionContent {
    GeometricUnits(Vec<RecognizedUnit>),
    PlainLines(Vec<String>),
}

/// Sum of the box heights of a word sequence.
pub open spec fn spec_height_sum(ws: Seq<WordV>) -> int
    decreases ws.len(),
{
    if ws.len() == 0 {
        0
    } else {
        spec_height_sum(ws.drop_last()) + (ws.last().bottom - ws.last().top)
    }
}

/// The words of `ws` whose box is non-degenerate: positive width and
/// height. These are the units that enter row grouping.
pub open spec fn spec_keep_boxed(ws: Seq<WordV>) -> Seq<WordV>
    decreases ws.len(),
{
    if ws.len() == 0 {
        Seq::empty()
    } else {
        let rest = spec_keep_boxed(ws.drop_last());
        let w = ws.last();
        if w.left < w.right && w.top < w.bottom {
            rest.push(w)
        } else {
            rest
        }
    }
}

/// The row threshold in doubled length units: `1.2` times the mean box
/// height, rounded down — so a doubled-center difference passes exactly
/// when the exact centers lie within `0.6` mean heights. With no boxed
/// words the mean falls back to `12` length units.
pub open spec fn spec_row_thr_x2(ws: Seq<WordV>) -> int {
    let n = if ws.len() == 0 {
        1int
    } else {
        ws.len() as int
    };
    let s = if ws.len() == 0 {
        12int
    } else {
        spec_height_sum(ws)
    };
    vstd::math::min((6 * s) / (5 * n), u64::MAX as int)
}

/// The gap threshold: `0.8` times the mean box height, rounded up — an
/// integer gap width passes exactly when it reaches `0.8` mean heights.
/// With no boxed words the mean falls back to `12` length units.
pub open spec fn spec_gap_thr(ws: Seq<WordV>) -> int {
    let n = if ws.len() == 0 {
        1int
    } else {
        ws.len() as int
    };
    let s = if ws.len() == 0 {
        12int
    } else {
        spec_height_sum(ws)
    };
    vstd::math::min((4 * s + 5 * n - 1) / (5 * n), u64::MAX as int)
}

/// Every word kept by the degenerate-box filter has positive extents.
pub proof fn lemma_keep_boxed_wf(ws: Seq<WordV>)
    ensures
        forall|k: int|
            0 <= k < spec_keep_boxed(ws).len() ==> (#[trigger] spec_keep_boxed(ws)[k]).left
                < spec_keep_boxed(ws)[k].right && spec_keep_boxed(ws)[k].top < spec_keep_boxed(
                ws,
            )[k].bottom,
    decreases ws.len(),
{
    if ws.len() > 0 {
        lemma_keep_boxed_wf(ws.drop_last());
        let rest = spec_keep_boxed(ws.drop_last());
        let w = ws.last();
        assert forall|k: int| 0 <= k < spec_keep_boxed(ws).len() implies (
        #[trigger] spec_keep_boxed(ws)[k]).left < spec_keep_boxed(ws)[k].right && spec_keep_boxed(
            ws,
        )[k].top < spec_keep_boxed(ws)[k].bottom by {
            if w.left < w.right && w.top < w.bottom {
                if k < rest.len() {
                    assert(spec_keep_boxed(ws)[k] == rest[k]);
                } else {
                    assert(spec_keep_boxed(ws)[k] == w);
                }
            } else {
                assert(spec_keep_boxed(ws)[k] == rest[k]);
            }
        }
    }
}

/// The unit filter agrees with the word filter: extracting the boxed
/// units and then dropping degenerate boxes is one pass.
pub proof fn lemma_boxed_words_wf(s: Seq<crate::words::UnitV>)
    ensures
        forall|k: int|
            0 <= k < spec_boxed_words(s).len() ==> (#[trigger] spec_boxed_words(s)[k]).left
                < spec_boxed_words(s)[k].right && spec_boxed_words(s)[k].top < spec_boxed_words(
                s,
            )[k].bottom,
    decreases s.len(),
{
    if s.len() > 0 {
        lemma_boxed_words_wf(s.drop_first());
        let rest = spec_boxed_words(s.drop_first());
        assert forall|k: int| 0 <= k < spec_boxed_words(s).len() implies (
        #[trigger] spec_boxed_words(s)[k]).left < spec_boxed_words(s)[k].right && spec_boxed_words(
            s,
        )[k].top < spec_boxed_words(s)[k].bottom by {
            match s[0].bbox {
                Some(b) => {
                    if b.left < b.right && b.top < b.bottom {
                        if k == 0 {
                            assert(spec_boxed_words(s)[k] == b);
                        } else {
                            assert(spec_boxed_words(s)[k] == rest[k - 1]);
                        }
                    } else {
                        assert(spec_boxed_words(s)[k] == rest[k]);
                    }
                },
                None => {
                    assert(spec_boxed_words(s)[k] == rest[k]);
                },
            }
        }
    }
}

/// Keeps the words with a non-degenerate box.
pub fn keep_wellformed(words: Vec<Word>) -> (r: Vec<Word>)
    ensures
        wv(r@) == spec_keep_boxed(wv(words@)),
{
    broadcast use lemma_wv_push;

    let ghost w0 = wv(words@);
    let mut r: Vec<Word> = Vec::new();
    proof {
        assert(wv(r@) =~= Seq::<WordV>::empty());
        assert(spec_keep_boxed(w0.take(0)) =~= Seq::<WordV>::empty());
    }
    let mut i: usize = 0;
    let n = words.len();
    while i < n
        invariant
            i <= n,
            n == words@.len(),
            w0 == wv(words@),
            wv(r@) == spec_keep_boxed(w0.take(i as int)),
        decreases n - i,
    {
        proof {
            assert(w0.take(i + 1).drop_last() =~= w0.take(i as int));
            assert(w0.take(i + 1).last() == words@[i as int]@);
        }
        let keep = words[i].left < words[i].right && words[i].top < words[i].bottom;
        if keep {
            let w = Word {
                text: words[i].text.clone(),
                left: words[i].left,
                top: words[i].top,
                right: words[i].right,
                bottom: words[i].bottom,
            };
            assert(w@ == words@[i as int]@);
            r.push(w);
        }
        i += 1;
    }
    proof {
        assert(w0.take(n as int) =~= w0);
    }
    r
}

/// The self-scaling thresholds of the geometric strategy for a word list:
/// the doubled row threshold and the gap threshold derived from the mean
/// box height, or from the fallback mean of `12` with no words.
pub fn compute_thresholds(words: &Vec<Word>) -> (r: (u64, u64))
    requires
        forall|k: int| 0 <= k < words@.len() ==> (#[trigger] words@[k]@).top <= words@[k]@.bottom,
    ensures
        r.0 == spec_row_thr_x2(wv(words@)),
        r.1 == spec_gap_thr(wv(words@)),
{
    let ghost w0 = wv(words@);
    let mut sum: u128 = 0;
    let mut i: usize = 0;
    proof {
        assert(spec_height_sum(w0.take(0)) == 0);
    }
    while i < words.len()
        invariant
            i <= words@.len(),
            w0 == wv(words@),
            forall|k: int|
                0 <= k < words@.len() ==> (#[trigger] words@[k]@).top <= words@[k]@.bottom,
            sum == spec_height_sum(w0.take(i as int)),
            sum <= i * (u32::MAX as int),
        decreases words@.len() - i,
    {
        proof {
            assert(w0.take(i + 1).drop_last() =~= w0.take(i as int));
            assert(w0.take(i + 1).last() == words@[i as int]@);
        }
        let h = words[i].bottom - words[i].top;
        sum += h as u128;
        i += 1;
    }
    proof {
        assert(w0.take(words@.len() as int) =~= w0);
    }
    let (s, n): (u128, u128) = if words.len() == 0 {
        (12, 1)
    } else {
        (sum, words.len() as u128)
    };
    let rt128: u128 = (6 * s) / (5 * n);
    let gt128: u128 = (4 * s + 5 * n - 1) / (5 * n);
    let rt: u64 = if rt128 > u64::MAX as u128 {
        u64::MAX
    } else {
        rt128 as u64
    };
    let gt: u64 = if gt128 > u64::MAX as u128 {
        u64::MAX
    } else {
        gt128 as u64
    };
    (rt, gt)
}

/// The grid of a region's content: the geometric pipeline on the units
/// with a non-degenerate box, at the self-scaling thresholds, or the
/// whitespace pipeline on plain lines.
pub open spec fn spec_reconstruct(c: RegionContent) -> Seq<Seq<Seq<char>>> {
    match c {
        RegionContent::GeometricUnits(units) => {
            let ws = spec_boxed_words(units@.map_values(|u: RecognizedUnit| u@));
            spec_build_grid(ws, spec_row_thr_x2(ws), spec_gap_thr(ws))
        },
        RegionContent::PlainLines(lines) => spec_build_grid_lines(sv(lines@)),
    }
}

/// Reconstructs the grid for what the OCR backend delivered: the strategy
/// selector. Unit input runs the geometric pipeline with thresholds
/// derived from the mean unit height; line input runs the whitespace
/// pipeline. Empty input of either kind yields an empty grid.
pub fn reconstruct_grid(content: RegionContent) -> (g: Vec<Vec<String>>)
    ensures
        gv(g@) == spec_reconstruct(content),
{
    match content {
        RegionContent::GeometricUnits(units) => {
            let ghost uv = units@.map_values(|u: RecognizedUnit| u@);
            let words = boxed_words(units);
            proof {
                lemma_boxed_words_wf(uv);
                assert forall|k: int| 0 <= k < words@.len() implies (#[trigger] words@[k]@).top
                    <= words@[k]@.bottom by {
                    assert(words@[k]@ == spec_boxed_words(uv)[k]);
                }
            }
            let (rt, gt) = compute_thresholds(&words);
            build_grid(words, rt, gt)
        },
        RegionContent::PlainLines(lines) => build_grid_lines(&lines),
    }
}

/// The grid of a transcript table: its words, degenerate boxes dropped,
/// through the geometric pipeline at the self-scaling thresholds.
pub open spec fn spec_region_columns(tsv: Seq<char>) -> Seq<Seq<Seq<char>>> {
    let ws = spec_keep_boxed(crate::parse::spec_parse_tsv(tsv));
    spec_build_grid(ws, spec_row_thr_x2(ws), spec_gap_thr(ws))
}

/// Builds the result of one region from the backend's word table and
/// plain transcript: the id and the transcript pass through unchanged;
/// the columns are the reconstructed grid of the table's words.
pub fn process_transcript(region_id: String, tsv: &str, full_text: String) -> (r: RegionResult)
    ensures
        r.region_id == region_id,
        r.text == full_text,
        gv(r.columns@) == spec_region_columns(tsv@),
{
    let parsed = crate::parse::parse_tsv_words(tsv);
    let ghost pv = wv(parsed@);
    let words = keep_wellformed(parsed);
    proof {
        lemma_keep_boxed_wf(pv);
        assert forall|k: int| 0 <= k < words@.len() implies (#[trigger] words@[k]@).top
            <= words@[k]@.bottom by {
            assert(words@[k]@ == spec_keep_boxed(pv)[k]);
        }
    }
    let (rt, gt) = compute_thresholds(&words);
    let columns = build_grid(words, rt, gt);
    RegionResult { region_id, text: full_text, columns }
}

/// Clamps a requested crop rectangle into an image of `img_w` by `img_h`
/// pixels, as the capture step does before cropping: an origin past the
/// edge moves to the last pixel, and the extent shrinks so the crop never
/// leaves the image.
pub fn clamp_region(x: u32, y: u32, width: u32, height: u32, img_w: u32, img_h: u32) -> (r: (
    u32,
    u32,
    u32,
    u32,
))
    ensures
        r.0 == vstd::math::min(x as int, vstd::math::max(img_w as int - 1, 0)),
        r.1 == vstd::math::min(y as int, vstd::math::max(img_h as int - 1, 0)),
        r.2 == vstd::math::min(width as int, img_w as int - r.0),
        r.3 == vstd::math::min(height as int, img_h as int - r.1),
{
    let cx: u32 = if img_w == 0 {
        0
    } else if x > img_w - 1 {
        img_w - 1
    } else {
        x
    };
    let cy: u32 = if img_h == 0 {
        0
    } else if y > img_h - 1 {
        img_h - 1
    } else {
        y
    };
    let cw: u32 = if width > img_w - cx {
        img_w - cx
    } else {
        width
    };
    let ch: u32 = if height > img_h - cy {
        img_h - cy
    } else {
        height
    };
    (cx, cy, cw, ch)
}

} // verus!
