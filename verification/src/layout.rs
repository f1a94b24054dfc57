use vstd::prelude::*;

use crate::chunks::BlockNumber;

verus! {

/// The decimal digits of `n`, as ASCII bytes.
pub open spec fn dec_seq(n: nat) -> Seq<u8>
    decreases n,
{
    if n < 10 {
        seq![(48 + n) as u8]
    } else {
        dec_seq(n / 10).push((48 + n % 10) as u8)
    }
}

/// The marker prefix of a directory whose download never completed.
pub open spec fn partial_prefix() -> Seq<u8> {
    seq![46u8, 112u8, 97u8, 114u8, 116u8, 105u8, 97u8, 108u8]
}

/// Appends the decimal form of `n`.
pub fn push_decimal(n: u64, out: &mut Vec<u8>)
    ensures
        final(out)@ == old(out)@ + dec_seq(n as nat),
    decreases n,
{
    if n < 10 {
        out.push(48 + (n as u8));
        proof {
            assert(out@ =~= old(out)@ + dec_seq(n as nat));
        }
    } else {
        push_decimal(n / 10, out);
        out.push(48 + ((n % 10) as u8));
        proof {
            assert(out@ =~= old(out)@ + dec_seq(n as nat));
        }
    }
}

/// The directory name a chunk's files live under: its block range written
/// `first-last` in decimal.
pub fn chunk_dir_name(first: BlockNumber, last: BlockNumber) -> (r: Vec<u8>)
    ensures
        r@ == dec_seq(first as nat) + seq![45u8] + dec_seq(last as nat),
{
    let mut r: Vec<u8> = Vec::new();
    push_decimal(first, &mut r);
    r.push(45);
    push_decimal(last, &mut r);
    proof {
        assert(r@ =~= dec_seq(first as nat) + seq![45u8] + dec_seq(last as nat));
    }
    r
}

/// Whether a directory name carries the marker of an incomplete download; a
/// startup rescan treats such a directory as absent and removes it.
pub fn is_partial_name(name: &[u8]) -> (r: bool)
    ensures
        r == (name@.len() >= 8 && name@.subrange(0, 8) =~= partial_prefix()),
{
    if name.len() < 8 {
        return false;
    }
    let r = name[0] == 46 && name[1] == 112 && name[2] == 97 && name[3] == 114 && name[4] == 116
        && name[5] == 105 && name[6] == 97 && name[7] == 108;
    proof {
        if r {
            assert(name@.subrange(0, 8) =~= partial_prefix());
        } else {
            if name@.subrange(0, 8) =~= partial_prefix() {
                assert(name@[0] == 46 && name@[1] == 112 && name@[2] == 97 && name@[3] == 114
                    && name@[4] == 116 && name@[5] == 105 && name@[6] == 97 && name@[7] == 108);
            }
        }
    }
    r
}

} // verus!
