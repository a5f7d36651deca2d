//! Fixed-width big-endian integers.

use vstd::prelude::*;

verus! {

/// The number that `s` denotes, most significant byte first.
pub open spec fn be_value(s: Seq<u8>) -> nat
    decreases s.len(),
{
    if s.len() == 0 {
        0
    } else {
        be_value(s.drop_last()) * 256 + s.last() as nat
    }
}

/// The `width` low-order bytes of `v`, most significant byte first.
pub open spec fn be_bytes(v: nat, width: nat) -> Seq<u8>
    decreases width,
{
    if width == 0 {
        Seq::empty()
    } else {
        be_bytes(v / 256, (width - 1) as nat).push((v % 256) as u8)
    }
}

/// How many values `width` bytes can tell apart.
pub open spec fn be_range(width: nat) -> nat
    decreases width,
{
    if width == 0 {
        1
    } else {
        256 * be_range((width - 1) as nat)
    }
}

/// The ranges of the widths that the wire format uses.
pub proof fn lemma_be_range_values()
    ensures
        be_range(2) == 0x1_0000,
        be_range(4) == 0x1_0000_0000,
        be_range(8) == 0x1_0000_0000_0000_0000,
        be_range(16) == 0x1_0000_0000_0000_0000_0000_0000_0000_0000,
{
    reveal_with_fuel(be_range, 17);
}

pub proof fn lemma_be_range_monotone(a: nat, b: nat)
    requires
        a <= b,
    ensures
        1 <= be_range(a) <= be_range(b),
    decreases b,
{
    if b == 0 {
    } else if a == b {
        lemma_be_range_monotone((a - 1) as nat, (b - 1) as nat);
    } else {
        lemma_be_range_monotone(a, (b - 1) as nat);
    }
}

/// A byte string denotes a number within the range of its width.
pub proof fn lemma_be_value_bound(s: Seq<u8>)
    ensures
        be_value(s) < be_range(s.len()),
    decreases s.len(),
{
    if s.len() > 0 {
        lemma_be_value_bound(s.drop_last());
    }
}

pub proof fn lemma_be_bytes_len(v: nat, width: nat)
    ensures
        be_bytes(v, width).len() == width,
    decreases width,
{
    if width > 0 {
        lemma_be_bytes_len(v / 256, (width - 1) as nat);
    }
}

/// Reading back what was written gives the number, if it fits the width.
pub proof fn lemma_be_value_of_bytes(v: nat, width: nat)
    requires
        v < be_range(width),
    ensures
        be_value(be_bytes(v, width)) == v,
    decreases width,
{
    if width > 0 {
        lemma_be_value_of_bytes(v / 256, (width - 1) as nat);
        assert(be_bytes(v, width).drop_last() =~= be_bytes(v / 256, (width - 1) as nat));
    }
}

/// Writing the number that a byte string denotes gives the byte string.
pub proof fn lemma_be_bytes_of_value(s: Seq<u8>)
    ensures
        be_bytes(be_value(s), s.len()) == s,
    decreases s.len(),
{
    if s.len() > 0 {
        lemma_be_bytes_of_value(s.drop_last());
        assert(be_value(s) / 256 == be_value(s.drop_last()));
        assert(be_value(s) % 256 == s.last() as nat);
        assert(s.drop_last().push(s.last()) =~= s);
    }
}

/// Byte strings of one length that denote the same number are the same.
pub proof fn lemma_be_value_injective(a: Seq<u8>, b: Seq<u8>)
    requires
        a.len() == b.len(),
        be_value(a) == be_value(b),
    ensures
        a == b,
{
    lemma_be_bytes_of_value(a);
    lemma_be_bytes_of_value(b);
}

/// Each byte weighs 256 times the one after it: of two, four and eight bytes the
/// first weighs most and the last counts for itself.
pub proof fn first_byte_weighs_most(s: Seq<u8>)
    ensures
        s.len() == 2 ==> be_value(s) == s[0] * 0x100 + s[1],
        s.len() == 4 ==> be_value(s) == s[0] * 0x100_0000 + s[1] * 0x1_0000 + s[2] * 0x100 + s[3],
        s.len() == 8 ==> be_value(s) == s[0] * 0x100_0000_0000_0000 + s[1] * 0x1_0000_0000_0000
            + s[2] * 0x100_0000_0000 + s[3] * 0x1_0000_0000 + s[4] * 0x100_0000 + s[5] * 0x1_0000
            + s[6] * 0x100 + s[7],
{
    reveal_with_fuel(be_value, 9);
}

/// A byte put after others multiplies what they denote by 256 and adds itself, and
/// no byte at all denotes zero.
pub proof fn each_byte_shifts_the_others(s: Seq<u8>, last: u8)
    ensures
        be_value(s.push(last)) == be_value(s) * 256 + last,
        be_value(Seq::<u8>::empty()) == 0,
{
    assert(s.push(last).drop_last() =~= s);
}

/// The last byte of a number is its remainder modulo 256, and the bytes before it
/// are those of its quotient.
pub proof fn last_byte_is_the_remainder(v: nat, width: nat)
    requires
        width > 0,
    ensures
        be_bytes(v, width).len() == width,
        be_bytes(v, width).last() == v % 256,
        be_bytes(v, width).drop_last() == be_bytes(v / 256, (width - 1) as nat),
{
    lemma_be_bytes_len(v, width);
    assert(be_bytes(v, width).drop_last() =~= be_bytes(v / 256, (width - 1) as nat));
}

/// The big-endian representation of `v` in `N` bytes.
pub fn to_be<const N: usize>(v: u64) -> (out: [u8; N])
    ensures
        out@ == be_bytes(v as nat, N as nat),
{
    let mut out: [u8; N] = [0u8;N];
    let mut rest: u64 = v;
    let mut i: usize = N;
    assert(be_bytes(rest as nat, N as nat) + out@.subrange(N as int, N as int) =~= be_bytes(
        v as nat,
        N as nat,
    ));
    while i > 0
        invariant
            i <= N,
            be_bytes(rest as nat, i as nat) + out@.subrange(i as int, N as int) == be_bytes(
                v as nat,
                N as nat,
            ),
        decreases i,
    {
        let ghost before = out@.subrange(i as int, N as int);
        let byte: u8 = (rest % 256) as u8;
        i = i - 1;
        out[i] = byte;
        proof {
            assert(out@.subrange(i as int, N as int) =~= seq![byte] + before);
            assert(be_bytes(rest as nat, (i + 1) as nat) + before =~= be_bytes(
                (rest / 256) as nat,
                i as nat,
            ) + (seq![byte] + before));
        }
        rest = rest / 256;
    }
    assert(out@.subrange(0, N as int) =~= out@);
    assert(be_bytes(rest as nat, 0) + out@ =~= out@);
    out
}

/// The number that up to sixteen big-endian bytes denote.
pub fn from_be(s: &[u8]) -> (v: u128)
    requires
        s@.len() <= 16,
    ensures
        v == be_value(s@),
{
    let mut v: u128 = 0;
    let mut i: usize = 0;
    while i < s.len()
        invariant
            i <= s@.len() <= 16,
            v == be_value(s@.take(i as int)),
        decreases s@.len() - i,
    {
        proof {
            let next = s@.take(i + 1);
            assert(next.drop_last() =~= s@.take(i as int));
            lemma_be_value_bound(next);
            lemma_be_range_monotone(next.len(), 16);
            lemma_be_range_values();
        }
        v = v * 256 + s[i] as u128;
        i = i + 1;
    }
    assert(s@.take(s@.len() as int) =~= s@);
    v
}

} // verus!
