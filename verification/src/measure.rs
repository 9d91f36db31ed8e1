//! Line breaking for a fixed-width text measure: words are laid out
//! greedily, a space between two words on a line, and a word that does not
//! fit on a non-empty line starts the next one.

use vstd::prelude::*;
use vstd::utf8::encode_utf8;
use crate::text::{chars_of, string_of, words, split_whitespace_chars};

verus! {

/// A text measure in which every byte of text is one character cell wide.
#[derive(Debug, Clone, Copy)]
pub struct FixedWidthTextMeasure;

/// The length of a word in bytes (`str::len`).
pub open spec fn word_bytes(w: Seq<char>) -> int {
    (encode_utf8(w).len() as usize) as int
}

/// Greedy line filling of `ws` into lines of `cpl` cells: (number of
/// lines, cells used on the last line, widest line before it).
pub open spec fn wrap_lines(ws: Seq<Seq<char>>, cpl: int) -> (int, int, int)
    decreases ws.len(),
{
    if ws.len() == 0 {
        (1, 0, 0)
    } else {
        let prev = wrap_lines(ws.drop_last(), cpl);
        let w = word_bytes(ws.last());
        let needed = if prev.1 > 0 {
            w + 1
        } else {
            w
        };
        if prev.1 > 0 && prev.1 + needed > cpl {
            (prev.0 + 1, w, if prev.2 >= prev.1 {
                prev.2
            } else {
                prev.1
            })
        } else {
            (prev.0, if prev.1 > 0 {
                prev.1 + 1 + w
            } else {
                w
            }, prev.2)
        }
    }
}

/// The lines a text takes and the width of its widest line, in cells.
pub open spec fn text_lines(text: Seq<char>, cpl: int) -> (int, int) {
    let r = wrap_lines(words(text), cpl);
    (r.0, if r.2 >= r.1 {
        r.2
    } else {
        r.1
    })
}

proof fn lemma_wrap_bounds(ws: Seq<Seq<char>>, cpl: int)
    requires
        0 <= cpl,
    ensures
        1 <= wrap_lines(ws, cpl).0 <= (if ws.len() == 0 { 1 } else { ws.len() as int }),
        0 <= wrap_lines(ws, cpl).1,
        0 <= wrap_lines(ws, cpl).2,
        ws.len() > 0 ==> wrap_lines(ws, cpl).1 == word_bytes(ws.last()) || wrap_lines(ws, cpl).1 <= cpl,
    decreases ws.len(),
{
    if ws.len() > 0 {
        lemma_wrap_bounds(ws.drop_last(), cpl);
        let prev = wrap_lines(ws.drop_last(), cpl);
        if prev.1 > 0 {
            assert(ws.drop_last().len() > 0);
        }
    }
}

impl FixedWidthTextMeasure {
    /// Break `text` into lines of `chars_per_line` cells: the number of
    /// lines (at least one) and the width of the widest line, in cells.
    pub fn line_layout(&self, text: &str, chars_per_line: usize) -> (r: (usize, usize))
        ensures
            r.0 as int == text_lines(text@, chars_per_line as int).0,
            r.1 as int == text_lines(text@, chars_per_line as int).1,
    {
        let chars = chars_of(text);
        let ws = split_whitespace_chars(&chars);
        let ghost wv = ws@.map_values(|w: Vec<char>| w@);
        let cpl = chars_per_line as u128;
        let mut lines: usize = 1;
        let mut current: usize = 0;
        let mut widest: usize = 0;
        let mut i: usize = 0;
        proof {
            assert(wv.take(0) =~= Seq::<Seq<char>>::empty());
        }
        while i < ws.len()
            invariant
                wv == ws@.map_values(|w: Vec<char>| w@),
                wv == words(chars@),
                chars@ == text@,
                cpl == chars_per_line as u128,
                i <= ws.len(),
                lines as int == wrap_lines(wv.take(i as int), chars_per_line as int).0,
                current as int == wrap_lines(wv.take(i as int), chars_per_line as int).1,
                widest as int == wrap_lines(wv.take(i as int), chars_per_line as int).2,
                1 <= lines <= (if i == 0 { 1 } else { i as int }),
            decreases ws.len() - i,
        {
            let word = string_of(&ws[i], 0, ws[i].len());
            assert(ws@[i as int]@.subrange(0, ws@[i as int]@.len() as int) =~= wv[i as int]);
            let w = word.as_str().len();
            proof {
                assert(wv.take(i + 1).drop_last() =~= wv.take(i as int));
                assert(wv.take(i + 1).last() == wv[i as int]);
                assert(w as int == word_bytes(wv[i as int]));
                lemma_wrap_bounds(wv.take(i as int), chars_per_line as int);
            }
            let needed: u128 = if current > 0 {
                w as u128 + 1
            } else {
                w as u128
            };
            if current > 0 && current as u128 + needed > cpl {
                if current > widest {
                    widest = current;
                }
                lines = lines + 1;
                current = w;
            } else {
                if current > 0 {
                    current = current + 1 + w;
                } else {
                    current = w;
                }
            }
            i += 1;
        }
        proof {
            assert(wv.take(ws.len() as int) =~= wv);
        }
        if current > widest {
            (lines, current)
        } else {
            (lines, widest)
        }
    }
}

/// The longest of some words, in bytes.
pub open spec fn longest(ws: Seq<Seq<char>>) -> int
    decreases ws.len(),
{
    if ws.len() == 0 {
        0
    } else if word_bytes(ws.last()) >= longest(ws.drop_last()) {
        word_bytes(ws.last())
    } else {
        longest(ws.drop_last())
    }
}

proof fn lemma_wrap_width(ws: Seq<Seq<char>>, cpl: int)
    requires
        0 <= cpl,
    ensures
        wrap_lines(ws, cpl).1 <= cpl || wrap_lines(ws, cpl).1 <= longest(ws),
        wrap_lines(ws, cpl).2 <= cpl || wrap_lines(ws, cpl).2 <= longest(ws),
        0 <= longest(ws),
    decreases ws.len(),
{
    if ws.len() > 0 {
        lemma_wrap_width(ws.drop_last(), cpl);
    }
}

/// The wider of the last line and the widest before it.
spec fn widest_so_far(r: (int, int, int)) -> int {
    if r.2 >= r.1 {
        r.2
    } else {
        r.1
    }
}

proof fn lemma_wrap_covers_words(ws: Seq<Seq<char>>, cpl: int)
    ensures
        forall|i: int| 0 <= i < ws.len() ==> word_bytes(#[trigger] ws[i]) <= widest_so_far(wrap_lines(ws, cpl)),
        ws.len() > 0 ==> word_bytes(ws.last()) <= wrap_lines(ws, cpl).1,
        0 <= wrap_lines(ws, cpl).1,
        0 <= wrap_lines(ws, cpl).2,
    decreases ws.len(),
{
    if ws.len() > 0 {
        let d = ws.drop_last();
        lemma_wrap_covers_words(d, cpl);
        assert forall|i: int| 0 <= i < ws.len() implies word_bytes(#[trigger] ws[i]) <= widest_so_far(wrap_lines(ws, cpl)) by {
            if i < ws.len() - 1 {
                assert(ws[i] == d[i]);
            }
        }
    }
}

/// The width of a text's layout is at least the width of each of its
/// words: no word, however long, is cut or left out of the widest line.
pub proof fn law_line_layout_covers_every_word(text: Seq<char>, chars_per_line: usize)
    ensures
        forall|i: int| 0 <= i < words(text).len() ==> word_bytes(#[trigger] words(text)[i]) <= text_lines(
            text,
            chars_per_line as int,
        ).1,
{
    lemma_wrap_covers_words(words(text), chars_per_line as int);
}

/// One more word at the end of a text never makes its layout narrower or
/// shorter: the widest line and the number of lines can only grow.
pub proof fn law_line_layout_grows_with_text(a: Seq<char>, b: Seq<char>, w: Seq<char>, chars_per_line: usize)
    requires
        words(b) == words(a).push(w),
    ensures
        text_lines(b, chars_per_line as int).1 >= text_lines(a, chars_per_line as int).1,
        text_lines(b, chars_per_line as int).0 >= text_lines(a, chars_per_line as int).0,
{
    let ws = words(a);
    lemma_wrap_covers_words(ws, chars_per_line as int);
    assert(words(b).drop_last() =~= ws);
    assert(words(b).last() == w);
}

/// A text takes at least one line, and no more lines than it has words; no
/// line is wider than `chars_per_line` cells unless it is one word that is
/// wider by itself.
pub proof fn law_line_layout_bounds(text: Seq<char>, chars_per_line: usize)
    ensures
        1 <= text_lines(text, chars_per_line as int).0,
        text_lines(text, chars_per_line as int).0 <= (if words(text).len() == 0 { 1 } else { words(text).len() as int }),
        text_lines(text, chars_per_line as int).1 <= chars_per_line || text_lines(text, chars_per_line as int).1
            <= longest(words(text)),
{
    lemma_wrap_bounds(words(text), chars_per_line as int);
    lemma_wrap_width(words(text), chars_per_line as int);
}

} // verus!
