//! Data model: recognized text units and their bounding boxes.
//!
//! Coordinates are integer pixel positions. A `Word` always carries a box;
//! a `RecognizedUnit` may lack one, in which case it can only take part in
//! the whitespace (line-based) strategy.

use vstd::prelude::*;

verus! {

/// Pixel-space bounding box of a recognized unit.
/// A box is well formed when `left < right` and `top < bottom`;
/// degenerate boxes are dropped before row grouping.
pub struct BoundingBox {
    pub left: u32,
    pub top: u32,
    pub right: u32,
    pub bottom: u32,
}

/// A recognized text unit as delivered by the OCR backend: its text and,
/// when the backend exposes geometry, its bounding box.
pub struct RecognizedUnit {
    pub text: String,
    pub bbox: Option<BoundingBox>,
}

/// A recognized word with a mandatory box; the working type of the
/// geometric strategy.
pub struct Word {
    pub text: String,
    pub left: u32,
    pub top: u32,
    pub right: u32,
    pub bottom: u32,
}

/// Mathematical model of a `Word`: its text as a character sequence and its
/// box as unbounded integers.
pub struct WordV {
    pub text: Seq<char>,
    pub left: int,
    pub top: int,
    pub right: int,
    pub bottom: int,
}

impl View for Word {
    type V = WordV;

    open spec fn view(&self) -> WordV {
        WordV {
            text: self.text@,
            left: self.left as int,
            top: self.top as int,
            right: self.right as int,
            bottom: self.bottom as int,
        }
    }
}

/// Model of a `RecognizedUnit`.
pub struct UnitV {
    pub text: Seq<char>,
    pub bbox: Option<WordV>,
}

impl View for RecognizedUnit {
    type V = UnitV;

    open spec fn view(&self) -> UnitV {
        match self.bbox {
            Some(b) => UnitV {
                text: self.text@,
                bbox: Some(
                    WordV {
                        text: self.text@,
                        left: b.left as int,
                        top: b.top as int,
                        right: b.right as int,
                        bottom: b.bottom as int,
                    },
                ),
            },
            None => UnitV { text: self.text@, bbox: None },
        }
    }
}

/// Doubled vertical center of a word's box, `top + bottom`. Working with
/// doubled centers keeps center comparisons exact in integer arithmetic.
pub open spec fn c2(w: WordV) -> int {
    w.top + w.bottom
}

/// Doubled horizontal center of a word's box, `left + right`.
pub open spec fn cx2(w: WordV) -> int {
    w.left + w.right
}

/// The view of a word sequence.
pub open spec fn wv(s: Seq<Word>) -> Seq<WordV> {
    s.map_values(|w: Word| w@)
}

/// The views of the rows of a grouped word sequence.
pub open spec fn rv(rows: Seq<Vec<Word>>) -> Seq<Seq<WordV>> {
    rows.map_values(|r: Vec<Word>| wv(r@))
}

/// Integer images of a split sequence.
pub open spec fn ints(s: Seq<u64>) -> Seq<int> {
    s.map_values(|x: u64| x as int)
}

/// The view of a string sequence.
pub open spec fn sv(s: Seq<String>) -> Seq<Seq<char>> {
    s.map_values(|x: String| x@)
}

/// The view of a grid of cell strings.
pub open spec fn gv(g: Seq<Vec<String>>) -> Seq<Seq<Seq<char>>> {
    g.map_values(|r: Vec<String>| sv(r@))
}

pub broadcast proof fn lemma_wv_push(s: Seq<Word>, w: Word)
    ensures
        #[trigger] wv(s.push(w)) == wv(s).push(w@),
{
    assert(wv(s.push(w)) =~= wv(s).push(w@));
}

pub broadcast proof fn lemma_wv_drop_last(s: Seq<Word>)
    requires
        s.len() > 0,
    ensures
        #[trigger] wv(s.drop_last()) == wv(s).drop_last(),
{
    assert(wv(s.drop_last()) =~= wv(s).drop_last());
}

pub broadcast proof fn lemma_wv_drop_first(s: Seq<Word>)
    requires
        s.len() > 0,
    ensures
        #[trigger] wv(s.drop_first()) == wv(s).drop_first(),
{
    assert(wv(s.drop_first()) =~= wv(s).drop_first());
}

pub broadcast proof fn lemma_sv_push(s: Seq<String>, x: String)
    ensures
        #[trigger] sv(s.push(x)) == sv(s).push(x@),
{
    assert(sv(s.push(x)) =~= sv(s).push(x@));
}

pub broadcast proof fn lemma_rv_push(rows: Seq<Vec<Word>>, r: Vec<Word>)
    ensures
        #[trigger] rv(rows.push(r)) == rv(rows).push(wv(r@)),
{
    assert(rv(rows.push(r)) =~= rv(rows).push(wv(r@)));
}

pub broadcast proof fn lemma_gv_push(g: Seq<Vec<String>>, r: Vec<String>)
    ensures
        #[trigger] gv(g.push(r)) == gv(g).push(sv(r@)),
{
    assert(gv(g.push(r)) =~= gv(g).push(sv(r@)));
}

pub broadcast proof fn lemma_ints_push(s: Seq<u64>, x: u64)
    ensures
        #[trigger] ints(s.push(x)) == ints(s).push(x as int),
{
    assert(ints(s.push(x)) =~= ints(s).push(x as int));
}

/// Doubled vertical center, executable counterpart of `c2`.
pub fn center2_y(w: &Word) -> (r: u64)
    ensures
        r == c2(w@),
{
    w.top as u64 + w.bottom as u64
}

/// Doubled horizontal center, executable counterpart of `cx2`.
pub fn center2_x(w: &Word) -> (r: u64)
    ensures
        r == cx2(w@),
{
    w.left as u64 + w.right as u64
}

/// Words extracted from a unit sequence: units that carry a well-formed
/// (non-degenerate) box, in input order, each paired with its text.
pub open spec fn spec_boxed_words(s: Seq<UnitV>) -> Seq<WordV>
    decreases s.len(),
{
    if s.len() == 0 {
        Seq::empty()
    } else {
        let rest = spec_boxed_words(s.drop_first());
        match s[0].bbox {
            Some(b) => if b.left < b.right && b.top < b.bottom {
                seq![b] + rest
            } else {
                rest
            },
            None => rest,
        }
    }
}

/// Keeps the units that carry a non-degenerate box, turning each into a
/// `Word`; the geometric strategy works on the result.
pub fn boxed_words(units: Vec<RecognizedUnit>) -> (r: Vec<Word>)
    ensures
        wv(r@) == spec_boxed_words(units@.map_values(|u: RecognizedUnit| u@)),
    decreases units@.len(),
{
    broadcast use lemma_wv_push;

    let mut units = units;
    if units.len() == 0 {
        let r: Vec<Word> = Vec::new();
        assert(wv(r@) =~= spec_boxed_words(units@.map_values(|u: RecognizedUnit| u@)));
        r
    } else {
        let ghost uv = units@.map_values(|u: RecognizedUnit| u@);
        let u = units.remove(0);
        proof {
            assert(units@.map_values(|u: RecognizedUnit| u@) =~= uv.drop_first());
            assert(uv[0] == u@);
        }
        let rest = boxed_words(units);
        match u.bbox {
            Some(b) => {
                if b.left < b.right && b.top < b.bottom {
                    let w = Word {
                        text: u.text,
                        left: b.left,
                        top: b.top,
                        right: b.right,
                        bottom: b.bottom,
                    };
                    let ghost restv = rest@;
                    let mut r = rest;
                    r.insert(0, w);
                    proof {
                        assert(r@ =~= seq![w] + restv);
                        assert(wv(seq![w] + restv) =~= seq![w@] + wv(restv));
                    }
                    r
                } else {
                    rest
                }
            },
            None => rest,
        }
    }
}

} // verus!
