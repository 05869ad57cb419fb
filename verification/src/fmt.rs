//! Decimal rendering of counters, right-justified in a fixed-width field,
//! as the utilities print them (`{:>4}`, `{:>6}`, `{:>8}`).

use vstd::prelude::*;

verus! {

/// The decimal digits of `n`, most significant first, as ASCII bytes.
pub open spec fn dec_digits(n: nat) -> Seq<u8>
    decreases n,
{
    if n < 10 {
        seq![(48 + n) as u8]
    } else {
        dec_digits(n / 10).push((48 + n % 10) as u8)
    }
}

/// `n` ASCII space bytes.
pub open spec fn spaces(n: nat) -> Seq<u8> {
    Seq::new(n, |i: int| 32u8)
}

/// The decimal rendering of `n`, right-justified with spaces in a field of
/// at least `width` bytes; wider numbers keep all their digits.
pub open spec fn padded(n: nat, width: nat) -> Seq<u8> {
    let d = dec_digits(n);
    if d.len() < width {
        spaces((width - d.len()) as nat) + d
    } else {
        d
    }
}

/// The decimal digits of `n`, most significant first.
pub fn format_decimal(n: u64) -> (r: Vec<u8>)
    ensures
        r@ == dec_digits(n as nat),
    decreases n,
{
    if n < 10 {
        let mut v: Vec<u8> = Vec::new();
        v.push(48 + n as u8);
        proof {
            assert(v@ =~= dec_digits(n as nat));
        }
        v
    } else {
        let mut v = format_decimal(n / 10);
        v.push(48 + (n % 10) as u8);
        v
    }
}

/// `n` right-justified with spaces in a field of at least `width` bytes.
pub fn format_padded(n: u64, width: usize) -> (r: Vec<u8>)
    ensures
        r@ == padded(n as nat, width as nat),
{
    let mut d = format_decimal(n);
    if d.len() < width {
        let pad: usize = width - d.len();
        let mut v: Vec<u8> = Vec::new();
        let mut i: usize = 0;
        while i < pad
            invariant
                i <= pad,
                v@ =~= spaces(i as nat),
            decreases pad - i,
        {
            v.push(32);
            i += 1;
        }
        v.append(&mut d);
        proof {
            assert(v@ =~= padded(n as nat, width as nat));
        }
        v
    } else {
        d
    }
}

} // verus!
