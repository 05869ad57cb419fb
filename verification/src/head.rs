//! Head-of-stream truncation: the first so-many bytes, or the first
//! so-many lines, of an input.

use vstd::prelude::*;

use crate::lines::append_bytes;
use crate::lines::concat_lines;
use crate::lines::views;

verus! {

/// The first `num_bytes` bytes of `data`, or all of it when it is shorter.
pub fn head_bytes(data: &Vec<u8>, num_bytes: usize) -> (out: Vec<u8>)
    ensures
        num_bytes <= data@.len() ==> out@ == data@.take(num_bytes as int),
        num_bytes > data@.len() ==> out@ == data@,
{
    let n = if num_bytes <= data.len() {
        num_bytes
    } else {
        data.len()
    };
    let mut out: Vec<u8> = Vec::new();
    let mut i: usize = 0;
    while i < n
        invariant
            i <= n,
            n <= data@.len(),
            out@ == data@.take(i as int),
        decreases n - i,
    {
        out.push(data[i]);
        proof {
            assert(data@.take(i + 1) =~= data@.take(i as int).push(data@[i as int]));
        }
        i += 1;
    }
    proof {
        assert(data@.take(data@.len() as int) =~= data@);
    }
    out
}

/// The first `num_lines` lines (terminators kept), laid end to end; all
/// of them when there are fewer.
pub fn head_lines(lines: &Vec<Vec<u8>>, num_lines: usize) -> (out: Vec<u8>)
    ensures
        num_lines <= lines@.len() ==> out@ == concat_lines(views(lines@).take(num_lines as int)),
        num_lines > lines@.len() ==> out@ == concat_lines(views(lines@)),
{
    let n = if num_lines <= lines.len() {
        num_lines
    } else {
        lines.len()
    };
    let mut out: Vec<u8> = Vec::new();
    let mut i: usize = 0;
    while i < n
        invariant
            i <= n,
            n <= lines@.len(),
            out@ == concat_lines(views(lines@).take(i as int)),
        decreases n - i,
    {
        append_bytes(&mut out, &lines[i]);
        proof {
            assert(views(lines@).take(i + 1).drop_last() =~= views(lines@).take(i as int));
            assert(views(lines@).take(i + 1).last() == lines@[i as int]@);
        }
        i += 1;
    }
    proof {
        assert(views(lines@).take(lines@.len() as int) =~= views(lines@));
    }
    out
}

} // verus!
