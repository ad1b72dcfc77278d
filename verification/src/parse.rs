//! Parsing of the OCR backend's tab-separated word table.
//!
//! The table has one record per line, the first line being a header. A
//! record with at least twelve tab-separated fields whose level field is
//! `5` names one recognized word: its left, top, width and height in
//! fields six to nine and its text in field eleven. Records with empty or
//! `-1` text are noise and are dropped. Number fields are read as decimal
//! digits; a malformed field reads as zero, and an overflowing value or
//! box edge saturates at the `u32` range.

use vstd::prelude::*;
use crate::words::{Word, WordV, wv, sv, lemma_wv_push};
use crate::lines::{spec_trim, trim_str};

verus! {

/// Index of the first occurrence of `d` at or after `start`; the length
/// when there is none.
pub open spec fn spec_find_from(s: Seq<char>, d: char, start: int) -> int
    decreases s.len() - start,
{
    if start < 0 || start >= s.len() {
        s.len() as int
    } else if s[start] == d {
        start
    } else {
        spec_find_from(s, d, start + 1)
    }
}

/// The pieces of `s` from `start` on, cut at every occurrence of `d`.
/// Cutting at each delimiter yields one piece more than delimiters.
pub open spec fn spec_split_from(s: Seq<char>, d: char, start: int) -> Seq<Seq<char>>
    decreases s.len() - start,
{
    let e = spec_find_from(s, d, start);
    if e >= s.len() {
        seq![s.subrange(start, s.len() as int)]
    } else if e < start {
        Seq::empty()
    } else {
        seq![s.subrange(start, e)] + spec_split_from(s, d, e + 1)
    }
}

/// Whether every character is a decimal digit.
pub open spec fn spec_all_digits(s: Seq<char>) -> bool
    decreases s.len(),
{
    if s.len() == 0 {
        true
    } else {
        spec_all_digits(s.drop_last()) && '0' <= s.last() <= '9'
    }
}

/// The value of a digit sequence read in base ten.
pub open spec fn spec_digits_val(s: Seq<char>) -> int
    decreases s.len(),
{
    if s.len() == 0 {
        0
    } else {
        10 * spec_digits_val(s.drop_last()) + (s.last() as int - '0' as int)
    }
}

/// The number a field reads as: its digit value, `0` when the field is
/// empty or holds a non-digit, saturated at `u32::MAX`.
pub open spec fn spec_parse_u32(s: Seq<char>) -> int {
    if s.len() == 0 || !spec_all_digits(s) {
        0
    } else if spec_digits_val(s) > u32::MAX {
        u32::MAX as int
    } else {
        spec_digits_val(s)
    }
}

/// The digit value of an all-digit sequence is non-negative and grows
/// with every appended digit.
proof fn lemma_digits_val_nonneg(s: Seq<char>)
    requires
        spec_all_digits(s),
    ensures
        spec_digits_val(s) >= 0,
    decreases s.len(),
{
    if s.len() > 0 {
        lemma_digits_val_nonneg(s.drop_last());
    }
}

/// The word a record line names, if any: twelve or more tab-separated
/// fields, level `5`, and a non-empty text other than `-1`; its box is
/// `left..left+width` by `top..top+height`, saturated at the `u32` range.
pub open spec fn spec_word_of_line(line: Seq<char>) -> Seq<WordV> {
    let cols = spec_split_from(line, '\t', 0);
    if cols.len() < 12 {
        Seq::empty()
    } else if spec_parse_u32(cols[0]) != 5 {
        Seq::empty()
    } else {
        let text = spec_trim(cols[11]);
        if text.len() == 0 || text == seq!['-', '1'] {
            Seq::empty()
        } else {
            let left = spec_parse_u32(cols[6]);
            let top = spec_parse_u32(cols[7]);
            let w = spec_parse_u32(cols[8]);
            let h = spec_parse_u32(cols[9]);
            seq![
                WordV {
                    text: text,
                    left: left,
                    top: top,
                    right: vstd::math::min(left + w, u32::MAX as int),
                    bottom: vstd::math::min(top + h, u32::MAX as int),
                },
            ]
        }
    }
}

/// The words of the record lines, header line dropped, in table order.
pub open spec fn spec_words_of_lines(ls: Seq<Seq<char>>) -> Seq<WordV>
    decreases ls.len(),
{
    if ls.len() == 0 {
        Seq::empty()
    } else {
        spec_words_of_lines(ls.drop_last()) + spec_word_of_line(ls.last())
    }
}

/// The words of a whole transcript table: its lines after the header,
/// each contributing its record's word if it names one.
pub open spec fn spec_parse_tsv(s: Seq<char>) -> Seq<WordV> {
    spec_words_of_lines(spec_split_from(s, '\n', 0).drop_first())
}

/// Index of the first occurrence of `d` at or after `start`.
fn find_from(s: &str, d: char, start: usize) -> (e: usize)
    requires
        start <= s@.len(),
    ensures
        e == spec_find_from(s@, d, start as int),
        start <= e <= s@.len(),
{
    let n = s.unicode_len();
    let mut e = start;
    while e < n && s.get_char(e) != d
        invariant
            start <= e <= n,
            n == s@.len(),
            spec_find_from(s@, d, start as int) == spec_find_from(s@, d, e as int),
            forall|k: int| start <= k < e ==> s@[k] != d,
        decreases n - e,
    {
        e += 1;
    }
    e
}

/// The pieces of `s` cut at every occurrence of `d`; always at least one
/// piece.
pub fn split_str(s: &str, d: char) -> (parts: Vec<String>)
    ensures
        sv(parts@) == spec_split_from(s@, d, 0),
        parts@.len() >= 1,
{
    broadcast use crate::words::lemma_sv_push;

    let n = s.unicode_len();
    let mut parts: Vec<String> = Vec::new();
    let mut start: usize = 0;
    let mut done = false;
    proof {
        assert(sv(parts@) =~= Seq::<Seq<char>>::empty());
    }
    while !done
        invariant
            start <= n,
            n == s@.len(),
            !done ==> sv(parts@) + spec_split_from(s@, d, start as int) == spec_split_from(
                s@,
                d,
                0,
            ),
            done ==> sv(parts@) == spec_split_from(s@, d, 0),
            done ==> parts@.len() >= 1,
        decreases n - start + if done {
            0int
        } else {
            1int
        },
    {
        let e = find_from(s, d, start);
        let piece = s.substring_char(start, e).to_owned();
        let ghost piecev = piece@;
        let ghost oldparts = sv(parts@);
        parts.push(piece);
        proof {
            assert(sv(parts@) == oldparts.push(piecev));
        }
        if e < n {
            proof {
                assert(spec_split_from(s@, d, start as int) == seq![
                    s@.subrange(start as int, e as int),
                ] + spec_split_from(s@, d, e + 1));
                assert((oldparts + (seq![piecev] + spec_split_from(s@, d, e + 1))) =~= (
                oldparts.push(piecev) + spec_split_from(s@, d, e + 1)));
            }
            start = e + 1;
        } else {
            proof {
                assert(spec_split_from(s@, d, start as int) == seq![
                    s@.subrange(start as int, s@.len() as int),
                ]);
                assert((oldparts + seq![piecev]) =~= oldparts.push(piecev));
            }
            done = true;
        }
    }
    parts
}

/// The number a field reads as: digits in base ten, `0` for a malformed
/// field, saturated at `u32::MAX`.
pub fn parse_u32_field(s: &str) -> (r: u32)
    ensures
        r == spec_parse_u32(s@),
{
    let n = s.unicode_len();
    let mut i: usize = 0;
    while i < n
        invariant
            i <= n,
            n == s@.len(),
            spec_all_digits(s@.take(i as int)),
        decreases n - i,
    {
        let c = s.get_char(i);
        proof {
            assert(s@.take(i + 1).drop_last() =~= s@.take(i as int));
            assert(s@.take(i + 1).last() == s@[i as int]);
        }
        if c < '0' || c > '9' {
            proof {
                lemma_not_all_digits(s@, i as int);
            }
            return 0;
        }
        i += 1;
    }
    proof {
        assert(s@.take(n as int) =~= s@);
    }
    if n == 0 {
        return 0;
    }
    let cap: u64 = 0x1_0000_0000;
    let mut acc: u64 = 0;
    let mut i: usize = 0;
    while i < n
        invariant
            i <= n,
            n == s@.len(),
            n >= 1,
            spec_all_digits(s@),
            cap == 0x1_0000_0000u64,
            acc <= cap,
            spec_digits_val(s@.take(i as int)) <= u32::MAX ==> acc == spec_digits_val(
                s@.take(i as int),
            ),
            spec_digits_val(s@.take(i as int)) > u32::MAX ==> acc == cap,
        decreases n - i,
    {
        let c = s.get_char(i);
        proof {
            assert(s@.take(i + 1).drop_last() =~= s@.take(i as int));
            assert(s@.take(i + 1).last() == s@[i as int]);
            lemma_all_digits_prefix(s@, i + 1);
            lemma_digits_val_nonneg(s@.take(i + 1));
            lemma_digits_val_nonneg(s@.take(i as int));
            assert('0' <= s@[i as int] <= '9') by {
                assert(s@.take(i + 1).last() == s@[i as int]);
                assert(spec_all_digits(s@.take(i + 1)));
            }
        }
        let d = c as u32 - 48;
        assert(d as int == s@[i as int] as int - '0' as int);
        acc = acc * 10 + d as u64;
        if acc > u32::MAX as u64 {
            acc = cap;
        }
        i += 1;
    }
    proof {
        assert(s@.take(n as int) =~= s@);
    }
    if acc > u32::MAX as u64 {
        u32::MAX
    } else {
        acc as u32
    }
}

/// A sequence with a non-digit character is not all digits.
proof fn lemma_not_all_digits(s: Seq<char>, i: int)
    requires
        0 <= i < s.len(),
        !('0' <= s[i] <= '9'),
    ensures
        !spec_all_digits(s),
    decreases s.len(),
{
    if s.len() > 0 {
        if i == s.len() - 1 {
            assert(s.last() == s[i]);
        } else {
            assert(s.drop_last()[i] == s[i]);
            lemma_not_all_digits(s.drop_last(), i);
        }
    }
}

/// Every prefix of an all-digit sequence is all digits.
proof fn lemma_all_digits_prefix(s: Seq<char>, i: int)
    requires
        spec_all_digits(s),
        0 <= i <= s.len(),
    ensures
        spec_all_digits(s.take(i)),
    decreases s.len() - i,
{
    if i == s.len() {
        assert(s.take(i) =~= s);
    } else {
        lemma_all_digits_prefix(s, i + 1);
        assert(s.take(i + 1).drop_last() =~= s.take(i));
        assert(spec_all_digits(s.take(i + 1)));
    }
}

/// The word a record line names, if any.
fn word_of_line(line: &str) -> (r: Option<Word>)
    ensures
        (match r {
            None => Seq::<WordV>::empty(),
            Some(w) => seq![w@],
        }) == spec_word_of_line(line@),
{
    let cols = split_str(line, '\t');
    if cols.len() < 12 {
        return None;
    }
    let level = parse_u32_field(cols[0].as_str());
    if level != 5 {
        return None;
    }
    let text = trim_str(cols[11].as_str());
    let empty_or_noise = {
        let tn = text.as_str().unicode_len();
        if tn == 0 {
            true
        } else {
            let is_noise = tn == 2 && text.as_str().get_char(0) == '-' && text.as_str().get_char(1)
                == '1';
            proof {
                if is_noise {
                    assert(text@ =~= seq!['-', '1']);
                } else if text@.len() == 2 {
                    assert(text@ != seq!['-', '1']) by {
                        if text@ == seq!['-', '1'] {
                            assert(text@[0] == '-' && text@[1] == '1');
                        }
                    }
                } else {
                    assert(text@.len() != 2);
                    assert(text@ != seq!['-', '1']);
                }
            }
            is_noise
        }
    };
    if empty_or_noise {
        return None;
    }
    let left = parse_u32_field(cols[6].as_str());
    let top = parse_u32_field(cols[7].as_str());
    let w = parse_u32_field(cols[8].as_str());
    let h = parse_u32_field(cols[9].as_str());
    let right: u32 = if left as u64 + w as u64 > u32::MAX as u64 {
        u32::MAX
    } else {
        left + w
    };
    let bottom: u32 = if top as u64 + h as u64 > u32::MAX as u64 {
        u32::MAX
    } else {
        top + h
    };
    Some(Word { text, left, top, right, bottom })
}

/// The words of a transcript table: one per record line with level `5`
/// and usable text, in table order, the header line dropped.
pub fn parse_tsv_words(tsv: &str) -> (r: Vec<Word>)
    ensures
        wv(r@) == spec_parse_tsv(tsv@),
{
    broadcast use lemma_wv_push;

    let lines = split_str(tsv, '\n');
    let ghost body = sv(lines@).drop_first();
    let mut words: Vec<Word> = Vec::new();
    let mut k: usize = 1;
    proof {
        assert(wv(words@) =~= Seq::<WordV>::empty());
        assert(spec_words_of_lines(body.take(0)) =~= Seq::<WordV>::empty());
    }
    while k < lines.len()
        invariant
            1 <= k <= lines@.len(),
            body == sv(lines@).drop_first(),
            wv(words@) == spec_words_of_lines(body.take(k - 1)),
        decreases lines@.len() - k,
    {
        proof {
            assert(body.take(k as int).drop_last() =~= body.take(k - 1));
            assert(body.take(k as int).last() == body[k - 1]);
            assert(body[k - 1] == lines@[k as int]@);
        }
        let ghost prewords = wv(words@);
        let w = word_of_line(lines[k].as_str());
        match w {
            Some(word) => {
                proof {
                    assert(spec_word_of_line(lines@[k as int]@) == seq![word@]);
                }
                words.push(word);
                proof {
                    assert((prewords + seq![word@]) =~= prewords.push(word@));
                }
            },
            None => {
                proof {
                    assert(prewords + spec_word_of_line(lines@[k as int]@) =~= prewords);
                }
            },
        }
        k += 1;
    }
    proof {
        assert(body.take(lines@.len() - 1) =~= body);
    }
    words
}

} // verus!
