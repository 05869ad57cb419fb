//! Concatenation with optional line numbering: every line is echoed with a
//! trailing line feed, numbered either consecutively or only when it is
//! non-empty, the number right-justified in a six-byte field and followed
//! by a tab.

use vstd::prelude::*;

use crate::fmt::format_padded;
use crate::fmt::padded;
use crate::lines::LF;
use crate::lines::append_bytes;
use crate::lines::views;

verus! {

/// The options of the concatenation utility: the inputs to read, and
/// which numbering to apply (numbering all lines wins over numbering only
/// the non-empty ones).
pub struct Config {
    pub files: Vec<String>,
    pub number_lines: bool,
    pub number_nonblank_lines: bool,
}

pub const TAB: u8 = 9;

/// How many of the first `i` lines are non-empty.
pub open spec fn nonblank_before(lines: Seq<Seq<u8>>, i: int) -> nat
    decreases i,
{
    if i <= 0 {
        0
    } else {
        nonblank_before(lines, i - 1) + if lines[i - 1].len() > 0 {
            1nat
        } else {
            0nat
        }
    }
}

/// The bytes emitted for one line: `num` is its one-based position,
/// `nb_num` its one-based position among the non-empty lines.
pub open spec fn cat_line(
    line: Seq<u8>,
    num: nat,
    nb_num: nat,
    number_lines: bool,
    number_nonblank: bool,
) -> Seq<u8> {
    if number_lines {
        padded(num, 6) + seq![TAB] + line + seq![LF]
    } else if number_nonblank {
        if line.len() > 0 {
            padded(nb_num, 6) + seq![TAB] + line + seq![LF]
        } else {
            seq![LF]
        }
    } else {
        line + seq![LF]
    }
}

/// The bytes emitted for all the lines, in order.
pub open spec fn cat_render_spec(
    lines: Seq<Seq<u8>>,
    number_lines: bool,
    number_nonblank: bool,
) -> Seq<u8>
    decreases lines.len(),
{
    if lines.len() == 0 {
        Seq::empty()
    } else {
        cat_render_spec(lines.drop_last(), number_lines, number_nonblank) + cat_line(
            lines.last(),
            lines.len() as nat,
            nonblank_before(lines, lines.len() - 1) + 1,
            number_lines,
            number_nonblank,
        )
    }
}

/// `nonblank_before` reads only the first `i` lines, so any two line
/// sequences that agree on them agree on it.
proof fn lemma_nonblank_prefix(a: Seq<Seq<u8>>, b: Seq<Seq<u8>>, i: int)
    requires
        0 <= i <= a.len(),
        i <= b.len(),
        forall|j: int| 0 <= j < i ==> a[j] == b[j],
    ensures
        nonblank_before(a, i) == nonblank_before(b, i),
    decreases i,
{
    if i > 0 {
        lemma_nonblank_prefix(a, b, i - 1);
    }
}

/// Renders `lines` (already stripped of their terminators) with the
/// numbering the options ask for, one line feed after each.
pub fn cat_render(lines: &Vec<Vec<u8>>, number_lines: bool, number_nonblank: bool) -> (out: Vec<
    u8,
>)
    ensures
        out@ == cat_render_spec(views(lines@), number_lines, number_nonblank),
{
    let mut out: Vec<u8> = Vec::new();
    let mut nonblank: usize = 0;
    let mut i: usize = 0;
    while i < lines.len()
        invariant
            i <= lines@.len(),
            !number_lines && number_nonblank ==> nonblank == nonblank_before(
                views(lines@),
                i as int,
            ),
            nonblank <= i,
            out@ == cat_render_spec(views(lines@.take(i as int)), number_lines, number_nonblank),
        decreases lines@.len() - i,
    {
        let line: &Vec<u8> = &lines[i];
        let ghost pre = views(lines@.take(i as int));
        let ghost post = views(lines@.take(i + 1));
        proof {
            assert(post.drop_last() =~~= pre);
            assert(post.last() == lines@[i as int]@);
            lemma_nonblank_prefix(post, views(lines@), i as int);
            lemma_nonblank_prefix(pre, views(lines@), i as int);
        }
        if number_lines {
            let mut field = format_padded((i + 1) as u64, 6);
            out.append(&mut field);
            out.push(TAB);
            append_bytes(&mut out, line);
            out.push(LF);
        } else if number_nonblank {
            if line.len() > 0 {
                nonblank += 1;
                let mut field = format_padded(nonblank as u64, 6);
                out.append(&mut field);
                out.push(TAB);
                append_bytes(&mut out, line);
                out.push(LF);
            } else {
                out.push(LF);
            }
        } else {
            append_bytes(&mut out, line);
            out.push(LF);
        }
        i += 1;
        proof {
            assert(out@ =~= cat_render_spec(post, number_lines, number_nonblank));
        }
    }
    proof {
        assert(lines@.take(lines@.len() as int) =~= lines@);
    }
    out
}

} // verus!
