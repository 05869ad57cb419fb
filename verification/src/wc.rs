//! Line, word, byte and character counting over a stream of characters,
//! and the eight-column report the word-count utility prints.

use vstd::prelude::*;

use crate::fmt::format_padded;
use crate::fmt::padded;
use crate::lines::LF;
use crate::lines::append_bytes;

verus! {

/// The counts taken over one input.
#[derive(Debug, PartialEq, Eq, Structural)]
pub struct FileInfo {
    pub num_lines: usize,
    pub num_words: usize,
    pub num_bytes: usize,
    pub num_chars: usize,
}

/// Whether `c` is Unicode whitespace, the separator that word counting
/// goes by.
pub open spec fn is_space(c: char) -> bool {
    ||| c == ' '
    ||| c == '\t'
    ||| c == '\n'
    ||| c == '\u{000B}'
    ||| c == '\u{000C}'
    ||| c == '\r'
    ||| c == '\u{0085}'
    ||| c == '\u{00A0}'
    ||| c == '\u{1680}'
    ||| (0x2000 <= c as u32 && c as u32 <= 0x200A)
    ||| c == '\u{2028}'
    ||| c == '\u{2029}'
    ||| c == '\u{202F}'
    ||| c == '\u{205F}'
    ||| c == '\u{3000}'
}

/// How many bytes the UTF-8 encoding of `c` takes.
pub open spec fn utf8_len(c: char) -> nat {
    if (c as u32) < 0x80 {
        1
    } else if (c as u32) < 0x800 {
        2
    } else if (c as u32) < 0x10000 {
        3
    } else {
        4
    }
}

/// The number of line feeds in `s`.
pub open spec fn newlines(s: Seq<char>) -> nat
    decreases s.len(),
{
    if s.len() == 0 {
        0
    } else {
        newlines(s.drop_last()) + if s.last() == '\n' {
            1nat
        } else {
            0nat
        }
    }
}

/// The number of lines a buffered line reader yields from `s`: one per
/// line feed, plus one for a final unterminated fragment.
pub open spec fn lines_in(s: Seq<char>) -> nat {
    newlines(s) + if s.len() > 0 && s.last() != '\n' {
        1nat
    } else {
        0nat
    }
}

/// The number of words of `s`: maximal runs of non-whitespace characters,
/// counted by their first character.
pub open spec fn words_in(s: Seq<char>) -> nat
    decreases s.len(),
{
    if s.len() == 0 {
        0
    } else {
        words_in(s.drop_last()) + if !is_space(s.last()) && (s.len() == 1 || is_space(
            s[s.len() - 2],
        )) {
            1nat
        } else {
            0nat
        }
    }
}

/// The number of bytes of the UTF-8 encoding of `s`.
pub open spec fn bytes_in(s: Seq<char>) -> nat
    decreases s.len(),
{
    if s.len() == 0 {
        0
    } else {
        bytes_in(s.drop_last()) + utf8_len(s.last())
    }
}

/// Whether `c` is Unicode whitespace.
fn is_space_exec(c: char) -> (r: bool)
    ensures
        r == is_space(c),
{
    let u = c as u32;
    u == 0x20 || (0x09 <= u && u <= 0x0D) || u == 0x85 || u == 0xA0 || u == 0x1680 || (0x2000 <= u
        && u <= 0x200A) || u == 0x2028 || u == 0x2029 || u == 0x202F || u == 0x205F || u == 0x3000
}

/// How many bytes the UTF-8 encoding of `c` takes.
fn utf8_len_exec(c: char) -> (r: usize)
    ensures
        r == utf8_len(c),
{
    let u = c as u32;
    if u < 0x80 {
        1
    } else if u < 0x800 {
        2
    } else if u < 0x10000 {
        3
    } else {
        4
    }
}

/// Counts the lines, words, UTF-8 bytes and characters of `text`.
pub fn count(text: &Vec<char>) -> (info: FileInfo)
    requires
        text@.len() * 4 <= usize::MAX,
    ensures
        info.num_lines == lines_in(text@),
        info.num_words == words_in(text@),
        info.num_bytes == bytes_in(text@),
        info.num_chars == text@.len(),
{
    let mut num_newlines: usize = 0;
    let mut num_words: usize = 0;
    let mut num_bytes: usize = 0;
    let mut after_space = true;
    let mut i: usize = 0;
    while i < text.len()
        invariant
            i <= text@.len(),
            text@.len() * 4 <= usize::MAX,
            num_newlines == newlines(text@.take(i as int)),
            num_newlines <= i,
            num_words == words_in(text@.take(i as int)),
            num_words <= i,
            num_bytes == bytes_in(text@.take(i as int)),
            num_bytes <= 4 * i,
            after_space == (i == 0 || is_space(text@[i - 1])),
        decreases text@.len() - i,
    {
        let c = text[i];
        proof {
            assert(text@.take(i + 1).drop_last() =~= text@.take(i as int));
            assert(text@.take(i + 1).last() == c);
        }
        if c == '\n' {
            num_newlines += 1;
        }
        let sp = is_space_exec(c);
        if !sp && after_space {
            num_words += 1;
        }
        after_space = sp;
        num_bytes += utf8_len_exec(c);
        i += 1;
    }
    proof {
        assert(text@.take(text@.len() as int) =~= text@);
    }
    let num_lines: usize = if text.len() > 0 && text[text.len() - 1] != '\n' {
        num_newlines + 1
    } else {
        num_newlines
    };
    FileInfo { num_lines, num_words, num_bytes, num_chars: text.len() }
}

impl FileInfo {
    /// Folds another input's counts into a running total.
    pub fn accumulate(&mut self, other: &FileInfo)
        requires
            old(self).num_lines + other.num_lines <= usize::MAX,
            old(self).num_words + other.num_words <= usize::MAX,
            old(self).num_bytes + other.num_bytes <= usize::MAX,
            old(self).num_chars + other.num_chars <= usize::MAX,
        ensures
            final(self).num_lines == old(self).num_lines + other.num_lines,
            final(self).num_words == old(self).num_words + other.num_words,
            final(self).num_bytes == old(self).num_bytes + other.num_bytes,
            final(self).num_chars == old(self).num_chars + other.num_chars,
    {
        self.num_lines = self.num_lines + other.num_lines;
        self.num_words = self.num_words + other.num_words;
        self.num_bytes = self.num_bytes + other.num_bytes;
        self.num_chars = self.num_chars + other.num_chars;
    }
}

/// The counts the report actually shows: the requested ones, or lines,
/// words and bytes when none was requested.
pub fn effective_flags(lines: bool, words: bool, bytes: bool, chars: bool) -> (r: (
    bool,
    bool,
    bool,
    bool,
))
    ensures
        (lines || words || bytes || chars) ==> r == (lines, words, bytes, chars),
        !(lines || words || bytes || chars) ==> r == (true, true, true, false),
{
    if !lines && !words && !bytes && !chars {
        (true, true, true, false)
    } else {
        (lines, words, bytes, chars)
    }
}

/// The report line for one input: each selected count right-justified in
/// an eight-byte field, then the label after one space when shown, then a
/// line feed.
pub open spec fn report_spec(
    info: FileInfo,
    show_lines: bool,
    show_words: bool,
    show_bytes: bool,
    show_chars: bool,
    label: Seq<u8>,
    show_label: bool,
) -> Seq<u8> {
    (if show_lines {
        padded(info.num_lines as nat, 8)
    } else {
        Seq::empty()
    }) + (if show_words {
        padded(info.num_words as nat, 8)
    } else {
        Seq::empty()
    }) + (if show_bytes {
        padded(info.num_bytes as nat, 8)
    } else {
        Seq::empty()
    }) + (if show_chars {
        padded(info.num_chars as nat, 8)
    } else {
        Seq::empty()
    }) + (if show_label {
        seq![32u8] + label
    } else {
        Seq::empty()
    }) + seq![LF]
}

/// Renders the report line for one input.
pub fn format_report(
    info: &FileInfo,
    show_lines: bool,
    show_words: bool,
    show_bytes: bool,
    show_chars: bool,
    label: &Vec<u8>,
    show_label: bool,
) -> (out: Vec<u8>)
    ensures
        out@ == report_spec(*info, show_lines, show_words, show_bytes, show_chars, label@, show_label),
{
    let mut out: Vec<u8> = Vec::new();
    if show_lines {
        let mut field = format_padded(info.num_lines as u64, 8);
        out.append(&mut field);
    }
    if show_words {
        let mut field = format_padded(info.num_words as u64, 8);
        out.append(&mut field);
    }
    if show_bytes {
        let mut field = format_padded(info.num_bytes as u64, 8);
        out.append(&mut field);
    }
    if show_chars {
        let mut field = format_padded(info.num_chars as u64, 8);
        out.append(&mut field);
    }
    if show_label {
        out.push(32);
        append_bytes(&mut out, label);
    }
    out.push(LF);
    proof {
        assert(out@ =~= report_spec(
            *info,
            show_lines,
            show_words,
            show_bytes,
            show_chars,
            label@,
            show_label,
        ));
    }
    out
}

} // verus!
