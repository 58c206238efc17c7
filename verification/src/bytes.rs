//! Numbers as bytes.

use vstd::arithmetic::power::{lemma_pow0, lemma_pow1, lemma_pow_adds, pow};
use vstd::prelude::*;

verus! {

/// The lower bytes of a number, the highest one first.
pub open spec fn big_endian(value: nat, n: nat) -> Seq<u8>
    decreases n,
{
    if n == 0 {
        Seq::empty()
    } else {
        big_endian(value / 256, (n - 1) as nat).push((value % 256) as u8)
    }
}

/// The number of which the bytes are given, the highest one first.
pub open spec fn big_endian_value(bytes: Seq<u8>) -> nat
    decreases bytes.len(),
{
    if bytes.len() == 0 {
        0
    } else {
        big_endian_value(bytes.drop_last()) * 256 + bytes.last() as nat
    }
}

/// The lower bytes of a number, the lowest one first.
pub open spec fn little_endian(value: nat, n: nat) -> Seq<u8> {
    big_endian(value, n).reverse()
}

/// The number of which the bytes are given, the lowest one first.
pub open spec fn little_endian_value(bytes: Seq<u8>) -> nat {
    big_endian_value(bytes.reverse())
}

/// The bytes are as many as asked for.
pub proof fn lemma_big_endian_len(value: nat, n: nat)
    ensures
        big_endian(value, n).len() == n,
    decreases n,
{
    if n > 0 {
        lemma_big_endian_len(value / 256, (n - 1) as nat);
    }
}

/// A number is read back from its bytes.
pub proof fn lemma_big_endian_reads_back(value: nat, n: nat)
    requires
        value < pow(256, n),
    ensures
        big_endian_value(big_endian(value, n)) == value,
    decreases n,
{
    if n == 0 {
        lemma_pow0(256);
    } else {
        lemma_pow_adds(256, 1, (n - 1) as nat);
        lemma_pow1(256);
        let less = pow(256, (n - 1) as nat);
        assert(value / 256 < less) by (nonlinear_arith)
            requires
                value < 256 * less,
        ;
        lemma_big_endian_reads_back(value / 256, (n - 1) as nat);
        let bytes = big_endian(value, n);
        assert(bytes.drop_last() =~= big_endian(value / 256, (n - 1) as nat));
        assert(bytes.last() == (value % 256) as u8);
    }
}

/// Bytes have a limited value.
pub proof fn lemma_big_endian_limit(bytes: Seq<u8>)
    ensures
        big_endian_value(bytes) < pow(256, bytes.len()),
    decreases bytes.len(),
{
    if bytes.len() == 0 {
        lemma_pow0(256);
    } else {
        let n = bytes.len();
        lemma_big_endian_limit(bytes.drop_last());
        lemma_pow_adds(256, 1, (n - 1) as nat);
        lemma_pow1(256);
        let less = pow(256, (n - 1) as nat);
        let value = big_endian_value(bytes.drop_last());
        let last = bytes.last();
        assert(value * 256 + last < 256 * less) by (nonlinear_arith)
            requires
                value < less,
                0 <= last < 256,
        ;
    }
}

/// The values of a few bytes fit the unsigned numbers.
pub proof fn lemma_limits()
    ensures
        pow(256, 2) == 0x1_0000,
        pow(256, 4) == 0x1_0000_0000,
        pow(256, 16) == 0x1_0000_0000_0000_0000_0000_0000_0000_0000,
{
    lemma_pow1(256);
    lemma_pow_adds(256, 1, 1);
    lemma_pow_adds(256, 2, 2);
    lemma_pow_adds(256, 4, 4);
    lemma_pow_adds(256, 8, 8);
    let (p1, p2, p4, p8, p16) = (pow(256, 1), pow(256, 2), pow(256, 4), pow(256, 8), pow(256, 16));
    assert(p2 == 0x1_0000) by (nonlinear_arith)
        requires
            p1 == 256,
            p2 == p1 * p1,
    ;
    assert(p4 == 0x1_0000_0000) by (nonlinear_arith)
        requires
            p2 == 0x1_0000,
            p4 == p2 * p2,
    ;
    assert(p8 == 0x1_0000_0000_0000_0000) by (nonlinear_arith)
        requires
            p4 == 0x1_0000_0000,
            p8 == p4 * p4,
    ;
    assert(p16 == 0x1_0000_0000_0000_0000_0000_0000_0000_0000) by (nonlinear_arith)
        requires
            p8 == 0x1_0000_0000_0000_0000,
            p16 == p8 * p8,
    ;
}

/// Writes the lower bytes of a number, the highest one first.
pub fn write_big_endian(out: &mut Vec<u8>, value: u128, n: usize)
    ensures
        final(out)@ == old(out)@ + big_endian(value as nat, n as nat),
    decreases n,
{
    if n > 0 {
        let ghost before = out@;
        write_big_endian(out, value / 256, n - 1);
        out.push((value % 256) as u8);
        assert(out@ =~= before + big_endian(value as nat, n as nat));
    } else {
        assert(out@ =~= out@ + big_endian(value as nat, 0));
    }
}

/// Writes the lower bytes of a number, the lowest one first.
pub fn write_little_endian(out: &mut Vec<u8>, value: u128, n: usize)
    ensures
        final(out)@ == old(out)@ + little_endian(value as nat, n as nat),
    decreases n,
{
    if n > 0 {
        let ghost before = out@;
        out.push((value % 256) as u8);
        write_little_endian(out, value / 256, n - 1);
        proof {
            let rest = big_endian((value / 256) as nat, (n - 1) as nat);
            let byte = (value % 256) as u8;
            assert(rest.push(byte).reverse() =~= seq![byte] + rest.reverse());
            assert(before.push(byte) + rest.reverse() =~= before + (seq![byte] + rest.reverse()));
        }
    } else {
        assert(big_endian(value as nat, 0).reverse() =~= Seq::empty());
        assert(out@ =~= out@ + Seq::<u8>::empty());
    }
}

/// Reads a number of which the bytes are given, the highest one first.
pub fn read_big_endian(bytes: &Vec<u8>, at: usize, n: usize) -> (r: u128)
    requires
        at + n <= bytes.len(),
        n <= 16,
    ensures
        r == big_endian_value(bytes@.subrange(at as int, at + n)),
{
    let mut value: u128 = 0;
    let mut i: usize = 0;
    assert(bytes@.subrange(at as int, at as int) =~= Seq::empty());
    while i < n
        invariant
            at + n <= bytes.len(),
            i <= n <= 16,
            value == big_endian_value(bytes@.subrange(at as int, at + i)),
        decreases n - i,
    {
        let byte = bytes[at + i];
        proof {
            let more = bytes@.subrange(at as int, at + i + 1);
            assert(more.drop_last() =~= bytes@.subrange(at as int, at + i));
            assert(more.last() == byte);
            lemma_big_endian_limit(more);
            lemma_limits();
            vstd::arithmetic::power::lemma_pow_increases(256, more.len(), 16);
        }
        value = value * 256 + byte as u128;
        i = i + 1;
    }
    value
}

/// Reads a number of which the bytes are given, the lowest one first.
pub fn read_little_endian(bytes: &Vec<u8>, at: usize, n: usize) -> (r: u128)
    requires
        at + n <= bytes.len(),
        n <= 16,
    ensures
        r == little_endian_value(bytes@.subrange(at as int, at + n)),
{
    let ghost part = bytes@.subrange(at as int, at + n);
    let mut value: u128 = 0;
    let mut i: usize = n;
    assert(part.reverse().take(0) =~= Seq::empty());
    while i > 0
        invariant
            at + n <= bytes.len(),
            i <= n <= 16,
            part == bytes@.subrange(at as int, at + n),
            value == big_endian_value(part.reverse().take(n - i)),
        decreases i,
    {
        let ghost k = n - i;
        i = i - 1;
        let byte = bytes[at + i];
        proof {
            let more = part.reverse().take(k + 1);
            assert(more.drop_last() =~= part.reverse().take(k));
            assert(part[i as int] == byte);
            assert(more.last() == byte);
            lemma_big_endian_limit(more);
            lemma_limits();
            vstd::arithmetic::power::lemma_pow_increases(256, more.len(), 16);
        }
        value = value * 256 + byte as u128;
    }
    assert(part.reverse().take(n as int) =~= part.reverse());
    value
}

/// A number is read back from its bytes, the lowest one first.
pub proof fn lemma_little_endian_reads_back(value: nat, n: nat)
    requires
        value < pow(256, n),
    ensures
        little_endian_value(little_endian(value, n)) == value,
        little_endian(value, n).len() == n,
{
    lemma_big_endian_reads_back(value, n);
    lemma_big_endian_len(value, n);
    assert(big_endian(value, n).reverse().reverse() =~= big_endian(value, n));
}

} // verus!
