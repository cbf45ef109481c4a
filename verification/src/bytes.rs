//! Numbers as bytes.

use vstd::arithmetic::power::pow;
use vstd::prelude::*;

verus! {

/// The low 32 bits of `n`.
pub open spec fn low32(n: int) -> int {
    n % 0x1_0000_0000
}

/// Byte `i` of `n`, counted from the least significant one.
pub open spec fn byte_of(n: int, i: nat) -> u8
    decreases i,
{
    if i == 0 {
        (n % 256) as u8
    } else {
        byte_of(n / 256, (i - 1) as nat)
    }
}

/// The `width` low bytes of `n`, least significant first.
pub open spec fn le_bytes(n: int, width: nat) -> Seq<u8> {
    Seq::new(width, |i: int| byte_of(n, i as nat))
}

/// The `width` low bytes of `n`, most significant first.
pub open spec fn be_bytes(n: int, width: nat) -> Seq<u8> {
    Seq::new(width, |i: int| byte_of(n, (width - 1 - i) as nat))
}

/// The number that `bytes` write, most significant first.
pub open spec fn be_value(bytes: Seq<u8>) -> int
    decreases bytes.len(),
{
    if bytes.len() == 0 {
        0
    } else {
        256 * be_value(bytes.drop_last()) + bytes.last()
    }
}

/// The two bytes of a 16-bit sample in two's complement, least significant
/// first.
pub open spec fn sample_bytes(sample: i16) -> Seq<u8> {
    le_bytes(if sample < 0 { sample + 0x1_0000 } else { sample as int }, 2)
}

/// Append the two bytes of `n`, least significant first.
pub fn push_u16_le(out: &mut Vec<u8>, n: u16)
    ensures
        final(out)@ == old(out)@ + le_bytes(n as int, 2),
{
    proof {
        reveal_with_fuel(byte_of, 3);
    }
    out.push((n % 256) as u8);
    out.push((n / 256) as u8);
}

/// Append the four bytes of `n`, least significant first.
pub fn push_u32_le(out: &mut Vec<u8>, n: u32)
    ensures
        final(out)@ == old(out)@ + le_bytes(n as int, 4),
{
    proof {
        reveal_with_fuel(byte_of, 5);
    }
    out.push((n % 256) as u8);
    out.push((n / 256 % 256) as u8);
    out.push((n / 256 / 256 % 256) as u8);
    out.push((n / 256 / 256 / 256 % 256) as u8);
}

/// Append the four bytes of `n`, most significant first.
pub fn push_u32_be(out: &mut Vec<u8>, n: u32)
    ensures
        final(out)@ == old(out)@ + be_bytes(n as int, 4),
{
    proof {
        reveal_with_fuel(byte_of, 5);
    }
    out.push((n / 256 / 256 / 256 % 256) as u8);
    out.push((n / 256 / 256 % 256) as u8);
    out.push((n / 256 % 256) as u8);
    out.push((n % 256) as u8);
}

/// The two bytes of a sample.
pub fn sample_le(sample: i16) -> (bytes: (u8, u8))
    ensures
        seq![bytes.0, bytes.1] == sample_bytes(sample),
{
    proof {
        reveal_with_fuel(byte_of, 3);
    }
    let wide: i32 = sample as i32;
    let n: u32 = if wide < 0 {
        (wide + 0x1_0000) as u32
    } else {
        wide as u32
    };
    ((n % 256) as u8, (n / 256) as u8)
}

/// The low 32 bits of `n`.
pub fn truncate_to_u32(n: u64) -> (low: u32)
    ensures
        low == low32(n as int),
{
    (n % 0x1_0000_0000) as u32
}

/// The number that `bytes` write, least significant first.
pub open spec fn le_value(bytes: Seq<u8>) -> int
    decreases bytes.len(),
{
    if bytes.len() == 0 {
        0
    } else {
        bytes[0] + 256 * le_value(bytes.skip(1))
    }
}

/// What `width` bytes can write.
pub proof fn lemma_byte_powers()
    ensures
        pow(256, 1) == 0x100,
        pow(256, 2) == 0x1_0000,
        pow(256, 4) == 0x1_0000_0000,
        pow(256, 8) == 0x1_0000_0000_0000_0000,
{
    reveal_with_fuel(pow, 9);
}

/// A number that fits `width` bytes reads back as itself, whichever end comes
/// first, and the two orders mirror one another.
pub proof fn law_bytes_read_back(n: int, width: nat)
    requires
        0 <= n < pow(256, width),
    ensures
        le_bytes(n, width).len() == width,
        be_bytes(n, width).len() == width,
        le_value(le_bytes(n, width)) == n,
        be_value(be_bytes(n, width)) == n,
        be_bytes(n, width) == le_bytes(n, width).reverse(),
    decreases width,
{
    reveal(pow);
    if width > 0 {
        let rest = (width - 1) as nat;
        law_bytes_read_back(n / 256, rest);
        assert(le_bytes(n, width).skip(1) =~= le_bytes(n / 256, rest));
        assert(be_bytes(n, width).drop_last() =~= be_bytes(n / 256, rest));
        assert(be_bytes(n, width).last() == byte_of(n, 0));
    }
    assert(be_bytes(n, width) =~= le_bytes(n, width).reverse());
}

/// The two bytes of a sample read back as the sample, where a value from the
/// upper half counts down from zero.
pub proof fn law_a_sample_reads_back(sample: i16)
    ensures
        sample_bytes(sample).len() == 2,
        sample == {
            let n = sample_bytes(sample)[0] + 256 * sample_bytes(sample)[1];
            if n < 0x8000 {
                n
            } else {
                n - 0x1_0000
            }
        },
{
    reveal_with_fuel(byte_of, 3);
}

/// The eight bytes of a 64-bit number, most significant first, written out.
#[verifier::rlimit(60)]
pub proof fn lemma_eight_bytes(n: int)
    requires
        0 <= n < 0x1_0000_0000_0000_0000,
    ensures
        be_bytes(n, 8) == seq![
            (n / 0x100_0000_0000_0000) as u8,
            (n / 0x1_0000_0000_0000 % 256) as u8,
            (n / 0x100_0000_0000 % 256) as u8,
            (n / 0x1_0000_0000 % 256) as u8,
            (n / 0x100_0000 % 256) as u8,
            (n / 0x1_0000 % 256) as u8,
            (n / 0x100 % 256) as u8,
            (n % 256) as u8,
        ],
{
    let n1 = n / 256;
    let n2 = n1 / 256;
    let n3 = n2 / 256;
    let n4 = n3 / 256;
    let n5 = n4 / 256;
    let n6 = n5 / 256;
    let n7 = n6 / 256;
    assert(byte_of(n7, 0) == (n7 % 256) as u8 && byte_of(n6, 0) == (n6 % 256) as u8 && byte_of(
        n5,
        0,
    ) == (n5 % 256) as u8 && byte_of(n4, 0) == (n4 % 256) as u8 && byte_of(n3, 0) == (n3
        % 256) as u8 && byte_of(n2, 0) == (n2 % 256) as u8 && byte_of(n1, 0) == (n1 % 256) as u8);
    assert(byte_of(n6, 1) == (n7 % 256) as u8);
    assert(byte_of(n5, 2) == (n7 % 256) as u8);
    assert(byte_of(n4, 3) == (n7 % 256) as u8);
    assert(byte_of(n3, 4) == (n7 % 256) as u8);
    assert(byte_of(n2, 5) == (n7 % 256) as u8);
    assert(byte_of(n1, 6) == (n7 % 256) as u8);
    assert(byte_of(n, 7) == (n7 % 256) as u8);
    assert(byte_of(n5, 1) == (n6 % 256) as u8 && byte_of(n4, 1) == (n5 % 256) as u8 && byte_of(
        n3,
        1,
    ) == (n4 % 256) as u8 && byte_of(n2, 1) == (n3 % 256) as u8 && byte_of(n1, 1) == (n2
        % 256) as u8 && byte_of(n, 1) == (n1 % 256) as u8);
    assert(byte_of(n4, 2) == (n6 % 256) as u8 && byte_of(n3, 2) == (n5 % 256) as u8 && byte_of(
        n2,
        2,
    ) == (n4 % 256) as u8 && byte_of(n1, 2) == (n3 % 256) as u8 && byte_of(n, 2) == (n2
        % 256) as u8);
    assert(byte_of(n3, 3) == (n6 % 256) as u8 && byte_of(n2, 3) == (n5 % 256) as u8 && byte_of(
        n1,
        3,
    ) == (n4 % 256) as u8 && byte_of(n, 3) == (n3 % 256) as u8);
    assert(byte_of(n2, 4) == (n6 % 256) as u8 && byte_of(n1, 4) == (n5 % 256) as u8 && byte_of(n, 4)
        == (n4 % 256) as u8);
    assert(byte_of(n1, 5) == (n6 % 256) as u8 && byte_of(n, 5) == (n5 % 256) as u8);
    assert(byte_of(n, 6) == (n6 % 256) as u8);
    assert(n / 0x1_0000 == n2);
    assert(n / 0x100_0000 == n3);
    assert(n / 0x1_0000_0000 == n4);
    assert(n / 0x100_0000_0000 == n5);
    assert(n / 0x1_0000_0000_0000 == n6);
    assert(n / 0x100_0000_0000_0000 == n7);
    assert(n7 % 256 == n7);
    assert(be_bytes(n, 8) =~= seq![
        (n / 0x100_0000_0000_0000) as u8,
        (n / 0x1_0000_0000_0000 % 256) as u8,
        (n / 0x100_0000_0000 % 256) as u8,
        (n / 0x1_0000_0000 % 256) as u8,
        (n / 0x100_0000 % 256) as u8,
        (n / 0x1_0000 % 256) as u8,
        (n / 0x100 % 256) as u8,
        (n % 256) as u8,
    ]);
}

/// The number that bytes write fits them, and writes back as they were.
#[verifier::rlimit(60)]
pub proof fn law_a_number_writes_back(bytes: Seq<u8>)
    ensures
        0 <= be_value(bytes) < pow(256, bytes.len()),
        be_bytes(be_value(bytes), bytes.len()) == bytes,
    decreases bytes.len(),
{
    reveal(pow);
    if bytes.len() > 0 {
        let rest = bytes.drop_last();
        law_a_number_writes_back(rest);
        let n = be_value(bytes);
        let m = be_value(rest);
        assert(n / 256 == m && n % 256 == bytes.last());
        let out = be_bytes(n, bytes.len());
        assert forall|i: int| 0 <= i < bytes.len() implies out[i] == bytes[i] by {
            if i == bytes.len() - 1 {
                assert(byte_of(n, 0) == bytes.last());
            } else {
                let k = (bytes.len() - 1 - i) as nat;
                assert(byte_of(n, k) == byte_of(m, (k - 1) as nat));
                assert(be_bytes(m, rest.len())[i] == rest[i]);
            }
        }
    }
    assert(be_bytes(be_value(bytes), bytes.len()) =~= bytes);
}

} // verus!
