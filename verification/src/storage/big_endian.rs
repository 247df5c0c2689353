use vstd::prelude::*;

verus! {

/// 256 to the power of `n`: the number of values that `n` bytes can tell
/// apart.
pub open spec fn pow256(n: nat) -> nat
    decreases n,
{
    if n == 0 {
        1
    } else {
        256 * pow256((n - 1) as nat)
    }
}

/// The `size` lowest bytes of a number, the most significant first.
pub open spec fn be_bytes(value: nat, size: nat) -> Seq<u8>
    decreases size,
{
    if size == 0 {
        Seq::empty()
    } else {
        be_bytes(value / 256, (size - 1) as nat).push((value % 256) as u8)
    }
}

/// The number that bytes stand for, the most significant first.
pub open spec fn be_value(bytes: Seq<u8>) -> nat
    decreases bytes.len(),
{
    if bytes.len() == 0 {
        0
    } else {
        be_value(bytes.drop_last()) * 256 + bytes.last() as nat
    }
}

/// The number that stands for a signed number in `size` bytes of two's
/// complement.
pub open spec fn twos_complement(value: int, size: nat) -> nat {
    if value >= 0 {
        value as nat
    } else {
        (value + pow256(size)) as nat
    }
}

/// The signed number that a number stands for in `size` bytes of two's
/// complement.
pub open spec fn from_twos_complement(value: nat, size: nat) -> int {
    if 2 * value < pow256(size) {
        value as int
    } else {
        value - pow256(size)
    }
}

/// The values of the powers of 256 that the integer types need.
pub proof fn lemma_pow256_values()
    ensures
        pow256(0) == 1,
        pow256(1) == 0x100,
        pow256(2) == 0x1_0000,
        pow256(4) == 0x1_0000_0000,
        pow256(8) == 0x1_0000_0000_0000_0000,
        pow256(15) == 0x1_0000_0000_0000_0000_0000_0000_0000_00,
        pow256(16) == 0x1_0000_0000_0000_0000_0000_0000_0000_0000,
{
    reveal_with_fuel(pow256, 17);
}

/// The powers of 256 grow.
pub proof fn lemma_pow256_grows(low: nat, high: nat)
    requires
        low <= high,
    ensures
        0 < pow256(low) <= pow256(high),
    decreases high,
{
    if high > low {
        lemma_pow256_grows(low, (high - 1) as nat);
    } else if low > 0 {
        lemma_pow256_grows((low - 1) as nat, (low - 1) as nat);
    }
}

/// A number is written in as many bytes as asked for.
pub proof fn lemma_be_bytes_len(value: nat, size: nat)
    ensures
        be_bytes(value, size).len() == size,
    decreases size,
{
    if size > 0 {
        lemma_be_bytes_len(value / 256, (size - 1) as nat);
    }
}

/// What bytes stand for is smaller than the number of values that so many
/// bytes can tell apart.
pub proof fn lemma_be_value_bound(bytes: Seq<u8>)
    ensures
        be_value(bytes) < pow256(bytes.len()),
    decreases bytes.len(),
{
    if bytes.len() > 0 {
        lemma_be_value_bound(bytes.drop_last());
        let high = be_value(bytes.drop_last());
        let limit = pow256((bytes.len() - 1) as nat);
        assert(high * 256 + bytes.last() < 256 * limit) by (nonlinear_arith)
            requires
                high < limit,
                bytes.last() < 256,
        ;
    }
}

/// A number that fits into the bytes is read back from them as it was
/// written.
pub proof fn lemma_be_value_of_bytes(value: nat, size: nat)
    requires
        value < pow256(size),
    ensures
        be_value(be_bytes(value, size)) == value,
    decreases size,
{
    if size > 0 {
        let rest = be_bytes(value / 256, (size - 1) as nat);
        let limit = pow256((size - 1) as nat);
        assert(value / 256 < limit) by (nonlinear_arith)
            requires
                value < 256 * limit,
        ;
        lemma_be_value_of_bytes(value / 256, (size - 1) as nat);
        let all = rest.push((value % 256) as u8);
        assert(all.drop_last() == rest);
        assert(value == (value / 256) * 256 + value % 256) by (nonlinear_arith);
    } else {
    }
}

/// A signed number that fits into the bytes comes back from its two's
/// complement as it was.
pub proof fn lemma_twos_complement(value: int, size: nat)
    requires
        -(pow256(size) as int) <= 2 * value < pow256(size),
    ensures
        twos_complement(value, size) < pow256(size),
        from_twos_complement(twos_complement(value, size), size) == value,
{
}

/// Write a number in `size` bytes, the most significant first.
pub fn unsigned_to_bytes(value: u128, size: usize) -> (bytes: Vec<u8>)
    ensures
        bytes@ == be_bytes(value as nat, size as nat),
{
    let mut bytes: Vec<u8> = Vec::new();
    let mut rest: u128 = value;
    let mut written: usize = 0;
    while written < size
        invariant
            written <= size,
            bytes@.len() == written,
            be_bytes(value as nat, size as nat) == be_bytes(rest as nat, (size - written) as nat)
                + bytes@,
        decreases size - written,
    {
        let ghost before = bytes@;
        let digit: u8 = (rest % 256) as u8;
        bytes.insert(0, digit);
        proof {
            let short = be_bytes((rest / 256) as nat, (size - written - 1) as nat);
            assert(be_bytes(rest as nat, (size - written) as nat) == short.push(digit));
            assert(short.push(digit) + before == short + bytes@);
        }
        rest = rest / 256;
        written += 1;
    }
    proof {
        assert(be_bytes(rest as nat, 0) + bytes@ == bytes@);
    }
    bytes
}

/// Read the number that up to sixteen bytes stand for, the most
/// significant first.
pub fn bytes_to_unsigned(bytes: &[u8]) -> (value: u128)
    requires
        bytes@.len() <= 16,
    ensures
        value == be_value(bytes@),
{
    let mut value: u128 = 0;
    let mut read: usize = 0;
    proof {
        assert(bytes@.take(0) == Seq::<u8>::empty());
    }
    while read < bytes.len()
        invariant
            read <= bytes@.len(),
            bytes@.len() <= 16,
            value == be_value(bytes@.take(read as int)),
        decreases bytes@.len() - read,
    {
        proof {
            let longer = bytes@.take(read + 1);
            assert(longer.drop_last() == bytes@.take(read as int));
            lemma_be_value_bound(longer);
            lemma_pow256_grows((read + 1) as nat, 16);
            lemma_pow256_values();
        }
        value = value * 256 + bytes[read] as u128;
        read += 1;
    }
    proof {
        assert(bytes@.take(bytes@.len() as int) == bytes@);
    }
    value
}

} // verus!
