use vstd::prelude::*;
use crate::storage::big_endian::pow256;

verus! {

/// The number that bytes stand for, the least significant first.
pub open spec fn le_value(bytes: Seq<u8>) -> nat
    decreases bytes.len(),
{
    if bytes.len() == 0 {
        0
    } else {
        bytes[0] as nat + 256 * le_value(bytes.skip(1))
    }
}

/// The `size` lowest bytes of a number, the least significant first.
pub open spec fn le_bytes(value: nat, size: nat) -> Seq<u8>
    decreases size,
{
    if size == 0 {
        Seq::empty()
    } else {
        seq![(value % 256) as u8] + le_bytes(value / 256, (size - 1) as nat)
    }
}

/// A number is written in as many bytes as asked for, and a number that
/// fits into the bytes is read back from them as it was written.
pub proof fn lemma_le_round_trip(value: nat, size: nat)
    ensures
        le_bytes(value, size).len() == size,
        value < pow256(size) ==> le_value(le_bytes(value, size)) == value,
    decreases size,
{
    if size > 0 {
        lemma_le_round_trip(value / 256, (size - 1) as nat);
        let rest = le_bytes(value / 256, (size - 1) as nat);
        let all = le_bytes(value, size);
        assert(all.skip(1) == rest);
        if value < pow256(size) {
            let limit = pow256((size - 1) as nat);
            assert(value / 256 < limit) by (nonlinear_arith)
                requires
                    value < 256 * limit,
            ;
            assert(value == value % 256 + 256 * (value / 256)) by (nonlinear_arith);
        }
    }
}

/// Write a number in `size` bytes, the least significant first.
pub fn unsigned_to_le_bytes(value: u64, size: usize) -> (bytes: Vec<u8>)
    ensures
        bytes@ == le_bytes(value as nat, size as nat),
{
    let mut bytes: Vec<u8> = Vec::new();
    let mut rest: u64 = value;
    let mut written: usize = 0;
    while written < size
        invariant
            written <= size,
            bytes@.len() == written,
            le_bytes(value as nat, size as nat) == bytes@ + le_bytes(
                rest as nat,
                (size - written) as nat,
            ),
        decreases size - written,
    {
        let ghost before = bytes@;
        let digit: u8 = (rest % 256) as u8;
        bytes.push(digit);
        proof {
            let tail = le_bytes((rest / 256) as nat, (size - written - 1) as nat);
            assert(le_bytes(rest as nat, (size - written) as nat) == seq![digit] + tail);
            assert(before + (seq![digit] + tail) == bytes@ + tail);
        }
        rest = rest / 256;
        written += 1;
    }
    proof {
        assert(bytes@ + le_bytes(rest as nat, 0) == bytes@);
    }
    bytes
}

} // verus!
