//! Lines as opaque byte sequences: splitting a byte stream into lines that
//! keep their terminator, and comparing lines with the terminator stripped.

use vstd::prelude::*;

verus! {

pub const LF: u8 = 10;

pub const CR: u8 = 13;

/// `line` with its trailing line terminator (`"\n"`, `"\r\n"` or `"\r"`)
/// removed; a line without one is returned unchanged.
pub open spec fn strip_term(line: Seq<u8>) -> Seq<u8> {
    if line.len() > 0 && line.last() == LF {
        let s = line.drop_last();
        if s.len() > 0 && s.last() == CR {
            s.drop_last()
        } else {
            s
        }
    } else if line.len() > 0 && line.last() == CR {
        line.drop_last()
    } else {
        line
    }
}

/// The byte sequences of a sequence of byte vectors.
pub open spec fn views(lines: Seq<Vec<u8>>) -> Seq<Seq<u8>> {
    lines.map_values(|l: Vec<u8>| l@)
}

/// `s` split into lines: every `LF` ends a line and stays part of it, and a
/// final fragment without a terminator is a line of its own.
pub open spec fn split_lines_spec(s: Seq<u8>) -> Seq<Seq<u8>>
    decreases s.len(),
{
    if s.len() == 0 {
        Seq::empty()
    } else {
        let prev = split_lines_spec(s.drop_last());
        let b = s.last();
        if prev.len() > 0 && prev.last().last() != LF {
            prev.update(prev.len() - 1, prev.last().push(b))
        } else {
            prev.push(seq![b])
        }
    }
}

/// All the lines laid end to end.
pub open spec fn concat_lines(lines: Seq<Seq<u8>>) -> Seq<u8>
    decreases lines.len(),
{
    if lines.len() == 0 {
        Seq::empty()
    } else {
        concat_lines(lines.drop_last()) + lines.last()
    }
}

/// Every line is non-empty.
pub open spec fn all_nonempty(lines: Seq<Seq<u8>>) -> bool {
    forall|i: int| 0 <= i < lines.len() ==> (#[trigger] lines[i]).len() > 0
}

/// No line carries a line feed anywhere but as its last byte.
pub open spec fn no_interior_lf(lines: Seq<Seq<u8>>) -> bool {
    forall|i: int, j: int|
        0 <= i < lines.len() && 0 <= j < lines[i].len() - 1 ==> (#[trigger] lines[i][j]) != LF
}

/// Every line but the last ends with a line feed.
pub open spec fn all_but_last_end_lf(lines: Seq<Seq<u8>>) -> bool {
    forall|i: int| 0 <= i < lines.len() - 1 ==> (#[trigger] lines[i]).last() == LF
}

/// Every line ends with a line feed.
pub open spec fn all_end_lf(lines: Seq<Seq<u8>>) -> bool {
    forall|i: int| 0 <= i < lines.len() ==> (#[trigger] lines[i]).last() == LF
}

/// The shape a splitter's lines have: non-empty, a line feed only as the
/// last byte, and only the last line possibly unterminated.
pub open spec fn line_shaped(lines: Seq<Seq<u8>>) -> bool {
    all_nonempty(lines) && no_interior_lf(lines) && all_but_last_end_lf(lines)
}

/// What splitting yields is line-shaped; it is empty only for empty
/// input, and its last line is terminated exactly when the input ends
/// with a line feed.
pub proof fn lemma_split_lines_shaped(s: Seq<u8>)
    ensures
        line_shaped(split_lines_spec(s)),
        split_lines_spec(s).len() == 0 <==> s.len() == 0,
        s.len() > 0 ==> (split_lines_spec(s).last().last() == LF <==> s.last() == LF),
    decreases s.len(),
{
    if s.len() > 0 {
        lemma_split_lines_shaped(s.drop_last());
        let prev = split_lines_spec(s.drop_last());
        let b = s.last();
        let r = split_lines_spec(s);
        if prev.len() > 0 && prev.last().last() != LF {
            let grown = prev.last().push(b);
            assert forall|i: int| 0 <= i < r.len() implies (#[trigger] r[i]).len() > 0 by {
                if i < prev.len() - 1 {
                    assert(r[i] == prev[i]);
                }
            }
            assert forall|i: int, j: int|
                0 <= i < r.len() && 0 <= j < r[i].len() - 1 implies (#[trigger] r[i][j]) != LF by {
                if i < prev.len() - 1 {
                    assert(r[i] == prev[i]);
                } else {
                    assert(r[i] == grown);
                    if j < prev.last().len() - 1 {
                        assert(grown[j] == prev.last()[j]);
                    } else {
                        assert(grown[j] == prev.last().last());
                    }
                }
            }
            assert forall|i: int| 0 <= i < r.len() - 1 implies (#[trigger] r[i]).last() == LF by {
                assert(r[i] == prev[i]);
            }
        } else {
            assert forall|i: int| 0 <= i < r.len() implies (#[trigger] r[i]).len() > 0 by {
                if i < prev.len() {
                    assert(r[i] == prev[i]);
                }
            }
            assert forall|i: int, j: int|
                0 <= i < r.len() && 0 <= j < r[i].len() - 1 implies (#[trigger] r[i][j]) != LF by {
                if i < prev.len() {
                    assert(r[i] == prev[i]);
                }
            }
            assert forall|i: int| 0 <= i < r.len() - 1 implies (#[trigger] r[i]).last() == LF by {
                if i < prev.len() - 1 {
                    assert(r[i] == prev[i]);
                } else {
                    assert(r[i] == prev[prev.len() - 1]);
                }
            }
        }
    }
}

/// A single line-shaped fragment splits to itself alone.
pub proof fn lemma_split_single_line(l: Seq<u8>)
    requires
        l.len() > 0,
        forall|j: int| 0 <= j < l.len() - 1 ==> l[j] != LF,
    ensures
        split_lines_spec(l) == seq![l],
    decreases l.len(),
{
    let l0 = l.drop_last();
    if l0.len() == 0 {
        assert(split_lines_spec(l0) =~= Seq::<Seq<u8>>::empty());
        assert(split_lines_spec(l) =~~= seq![l]);
    } else {
        lemma_split_single_line(l0);
        assert(l0.last() == l[l.len() - 2]);
        assert(split_lines_spec(l0).last() == l0);
        assert(split_lines_spec(l) =~~= seq![l0.push(l.last())]);
        assert(l0.push(l.last()) =~= l);
    }
}

/// Splitting distributes over concatenation at a line boundary: when `s`
/// ends with a line feed (or is empty), the lines of `s + t` are the
/// lines of `s` followed by the lines of `t`.
pub proof fn lemma_split_append(s: Seq<u8>, t: Seq<u8>)
    requires
        s.len() > 0 ==> s.last() == LF,
    ensures
        split_lines_spec(s + t) == split_lines_spec(s) + split_lines_spec(t),
    decreases t.len(),
{
    lemma_split_lines_shaped(s);
    if t.len() == 0 {
        assert(s + t =~= s);
        assert(split_lines_spec(t) =~= Seq::<Seq<u8>>::empty());
        assert(split_lines_spec(s) + split_lines_spec(t) =~= split_lines_spec(s));
    } else {
        let t0 = t.drop_last();
        let b = t.last();
        lemma_split_append(s, t0);
        lemma_split_lines_shaped(t0);
        assert((s + t).drop_last() =~= s + t0);
        assert((s + t).last() == b);
        let prev = split_lines_spec(s + t0);
        let tprev = split_lines_spec(t0);
        if tprev.len() > 0 {
            assert(prev.last() == tprev.last());
            assert(split_lines_spec(s + t) =~~= split_lines_spec(s) + split_lines_spec(t));
        } else {
            assert(t0.len() == 0);
            assert(prev =~= split_lines_spec(s));
            if prev.len() > 0 {
                assert(prev.last().last() == LF);
            }
            assert(split_lines_spec(s + t) =~~= split_lines_spec(s) + split_lines_spec(t));
        }
    }
}

/// Splitting inverts concatenation on line-shaped sequences.
pub proof fn lemma_concat_split_inverse(lines: Seq<Seq<u8>>)
    requires
        line_shaped(lines),
    ensures
        split_lines_spec(concat_lines(lines)) == lines,
    decreases lines.len(),
{
    if lines.len() == 0 {
        assert(concat_lines(lines) =~= Seq::<u8>::empty());
        assert(split_lines_spec(concat_lines(lines)) =~= lines);
    } else {
        let h = lines.drop_last();
        let l = lines.last();
        assert(line_shaped(h)) by {
            assert forall|i: int| 0 <= i < h.len() implies (#[trigger] h[i]).len() > 0 by {
                assert(h[i] == lines[i]);
            }
            assert forall|i: int, j: int|
                0 <= i < h.len() && 0 <= j < h[i].len() - 1 implies (#[trigger] h[i][j]) != LF by {
                assert(h[i] == lines[i]);
            }
            assert forall|i: int| 0 <= i < h.len() - 1 implies (#[trigger] h[i]).last() == LF by {
                assert(h[i] == lines[i]);
            }
        }
        lemma_concat_split_inverse(h);
        if h.len() > 0 {
            assert(h.last() == lines[lines.len() - 2]);
            assert(h.last().last() == LF);
            assert(concat_lines(h).last() == h.last().last());
            assert(concat_lines(h).len() > 0);
        }
        lemma_split_append(concat_lines(h), l);
        lemma_split_single_line(l);
        assert(split_lines_spec(concat_lines(lines)) =~~= lines);
    }
}

/// Splitting loses no bytes: the lines of `s`, laid end to end, are `s`.
pub proof fn lemma_split_concat(s: Seq<u8>)
    ensures
        concat_lines(split_lines_spec(s)) == s,
    decreases s.len(),
{
    if s.len() > 0 {
        lemma_split_concat(s.drop_last());
        let prev = split_lines_spec(s.drop_last());
        let b = s.last();
        if prev.len() > 0 && prev.last().last() != LF {
            let r = prev.update(prev.len() - 1, prev.last().push(b));
            assert(r.drop_last() =~= prev.drop_last());
            assert(r.last() == prev.last().push(b));
            assert(concat_lines(prev.drop_last()) + prev.last().push(b) =~= (concat_lines(
                prev.drop_last(),
            ) + prev.last()).push(b));
            assert(concat_lines(r) =~= s);
        } else {
            assert(prev.push(seq![b]).drop_last() =~= prev);
            assert(concat_lines(prev) + seq![b] =~= concat_lines(prev).push(b));
            assert(concat_lines(split_lines_spec(s)) =~= s);
        }
    }
}

/// Copies `src` onto the end of `dst`.
pub fn append_bytes(dst: &mut Vec<u8>, src: &Vec<u8>)
    ensures
        final(dst)@ == old(dst)@ + src@,
{
    let mut i: usize = 0;
    while i < src.len()
        invariant
            i <= src@.len(),
            dst@ == old(dst)@ + src@.take(i as int),
        decreases src@.len() - i,
    {
        dst.push(src[i]);
        proof {
            assert(old(dst)@ + src@.take(i + 1) =~= (old(dst)@ + src@.take(i as int)).push(
                src@[i as int],
            ));
        }
        i += 1;
    }
    proof {
        assert(src@.take(src@.len() as int) =~= src@);
    }
}

/// A fresh copy of `src`.
pub fn copy_bytes(src: &Vec<u8>) -> (out: Vec<u8>)
    ensures
        out@ == src@,
{
    let mut out: Vec<u8> = Vec::new();
    append_bytes(&mut out, src);
    proof {
        assert(Seq::<u8>::empty() + src@ =~= src@);
    }
    out
}

/// The number of bytes of `line` that remain once the trailing terminator
/// is stripped.
fn stripped_len(line: &Vec<u8>) -> (n: usize)
    ensures
        line@.take(n as int) == strip_term(line@),
        n <= line@.len(),
{
    let len = line.len();
    let n: usize = if len > 0 && line[len - 1] == LF {
        if len > 1 && line[len - 2] == CR {
            len - 2
        } else {
            len - 1
        }
    } else if len > 0 && line[len - 1] == CR {
        len - 1
    } else {
        len
    };
    proof {
        assert(line@.take(n as int) =~= strip_term(line@));
    }
    n
}

/// Whether two lines have equal content once each one's trailing line
/// terminator is stripped.
pub fn lines_match(a: &Vec<u8>, b: &Vec<u8>) -> (r: bool)
    ensures
        r == (strip_term(a@) == strip_term(b@)),
{
    let na = stripped_len(a);
    let nb = stripped_len(b);
    if na != nb {
        proof {
            assert(strip_term(a@).len() == na);
            assert(strip_term(b@).len() == nb);
        }
        return false;
    }
    let mut i: usize = 0;
    while i < na
        invariant
            i <= na,
            na == nb,
            na <= a@.len(),
            nb <= b@.len(),
            a@.take(na as int) == strip_term(a@),
            b@.take(nb as int) == strip_term(b@),
            forall|j: int| 0 <= j < i ==> a@[j] == b@[j],
        decreases na - i,
    {
        if a[i] != b[i] {
            proof {
                assert(strip_term(a@)[i as int] != strip_term(b@)[i as int]);
            }
            return false;
        }
        i += 1;
    }
    proof {
        assert(strip_term(a@) =~= strip_term(b@));
    }
    true
}

/// `data` split into lines. Every `LF` byte ends a line and remains its
/// last byte; bytes after the last `LF` form one final, unterminated line.
pub fn split_lines(data: &Vec<u8>) -> (lines: Vec<Vec<u8>>)
    ensures
        views(lines@) == split_lines_spec(data@),
        concat_lines(views(lines@)) == data@,
        line_shaped(views(lines@)),
{
    proof {
        lemma_split_concat(data@);
        lemma_split_lines_shaped(data@);
    }
    let mut lines: Vec<Vec<u8>> = Vec::new();
    let mut cur: Vec<u8> = Vec::new();
    let mut i: usize = 0;
    while i < data.len()
        invariant
            i <= data@.len(),
            cur@.len() > 0 ==> cur@.last() != LF,
            forall|j: int| 0 <= j < lines@.len() ==> #[trigger] lines@[j]@.len() > 0 && lines@[j]@.last() == LF,
            cur@.len() == 0 ==> views(lines@) == split_lines_spec(data@.take(i as int)),
            cur@.len() > 0 ==> views(lines@).push(cur@) == split_lines_spec(data@.take(i as int)),
        decreases data@.len() - i,
    {
        let b = data[i];
        let ghost prev = split_lines_spec(data@.take(i as int));
        let ghost old_lines = lines@;
        let ghost old_cur = cur@;
        proof {
            assert(data@.take(i + 1).drop_last() =~= data@.take(i as int));
            assert(data@.take(i + 1).last() == b);
            if old_cur.len() == 0 {
                if prev.len() > 0 {
                    assert(prev.last() == old_lines[old_lines.len() - 1]@);
                    assert(prev.last().last() == LF);
                }
                assert(split_lines_spec(data@.take(i + 1)) =~~= views(old_lines).push(old_cur.push(b)));
            } else {
                assert(prev.last() == old_cur);
                assert(split_lines_spec(data@.take(i + 1)) =~~= views(old_lines).push(old_cur.push(b)));
            }
        }
        cur.push(b);
        i += 1;
        if b == LF {
            lines.push(cur);
            cur = Vec::new();
            proof {
                assert(views(lines@) =~~= views(old_lines).push(old_cur.push(b)));
            }
        } else {
            proof {
                assert(views(lines@).push(cur@) =~~= views(old_lines).push(old_cur.push(b)));
            }
        }
    }
    proof {
        assert(data@.take(data@.len() as int) =~= data@);
    }
    if cur.len() > 0 {
        let ghost old_lines = lines@;
        let ghost c = cur@;
        lines.push(cur);
        proof {
            assert(views(lines@) =~~= views(old_lines).push(c));
        }
    }
    lines
}

} // verus!
