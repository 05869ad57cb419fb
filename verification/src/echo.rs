//! Echoing arguments: the arguments joined by single spaces, with a line
//! feed unless it is suppressed.

use vstd::prelude::*;

use crate::lines::LF;
use crate::lines::append_bytes;
use crate::lines::views;

verus! {

/// The arguments laid end to end with one space between neighbours.
pub open spec fn joined(args: Seq<Seq<u8>>) -> Seq<u8>
    decreases args.len(),
{
    if args.len() == 0 {
        Seq::empty()
    } else if args.len() == 1 {
        args[0]
    } else {
        joined(args.drop_last()) + seq![32u8] + args.last()
    }
}

/// The arguments joined by single spaces, followed by a line feed unless
/// `omit_newline` is set.
pub fn echo_line(args: &Vec<Vec<u8>>, omit_newline: bool) -> (out: Vec<u8>)
    ensures
        !omit_newline ==> out@ == joined(views(args@)) + seq![LF],
        omit_newline ==> out@ == joined(views(args@)),
{
    let mut out: Vec<u8> = Vec::new();
    let mut i: usize = 0;
    while i < args.len()
        invariant
            i <= args@.len(),
            out@ == joined(views(args@).take(i as int)),
        decreases args@.len() - i,
    {
        proof {
            assert(views(args@).take(i + 1).drop_last() =~= views(args@).take(i as int));
            assert(views(args@).take(i + 1).last() == args@[i as int]@);
            if i == 0 {
                assert(views(args@).take(1)[0] == args@[0]@);
            }
        }
        if i > 0 {
            out.push(32);
        }
        append_bytes(&mut out, &args[i]);
        proof {
            if i == 0 {
                assert(Seq::<u8>::empty() + args@[0]@ =~= args@[0]@);
            }
        }
        i += 1;
    }
    proof {
        assert(views(args@).take(args@.len() as int) =~= views(args@));
    }
    if !omit_newline {
        out.push(LF);
    }
    out
}

} // verus!
