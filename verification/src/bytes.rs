//! Little-endian fields and in-place edits of byte sequences.
use vstd::prelude::*;

verus! {

/// `s` with the bytes from `at` on replaced by `data`, clipped to `s`.
pub open spec fn splice(s: Seq<u8>, at: int, data: Seq<u8>) -> Seq<u8> {
    Seq::new(
        s.len(),
        |i: int|
            if at <= i < at + data.len() {
                data[i - at]
            } else {
                s[i]
            },
    )
}

/// `n` zero bytes.
pub open spec fn zeros(n: nat) -> Seq<u8> {
    Seq::new(n, |i: int| 0u8)
}

/// The little-endian 16-bit number stored at `at`.
pub open spec fn u16_at(s: Seq<u8>, at: int) -> u16 {
    (s[at] + 0x100 * s[at + 1]) as u16
}

/// The little-endian 32-bit number stored at `at`.
pub open spec fn u32_at(s: Seq<u8>, at: int) -> u32 {
    (s[at] + 0x100 * s[at + 1] + 0x1_0000 * s[at + 2] + 0x100_0000 * s[at + 3]) as u32
}

/// The two bytes that store `value`.
pub open spec fn u16_bytes(value: u16) -> Seq<u8> {
    seq![(value % 0x100) as u8, (value / 0x100) as u8]
}

/// The four bytes that store `value`.
pub open spec fn u32_bytes(value: u32) -> Seq<u8> {
    seq![
        (value % 0x100) as u8,
        (value / 0x100 % 0x100) as u8,
        (value / 0x1_0000 % 0x100) as u8,
        (value / 0x100_0000) as u8,
    ]
}

/// A stored 16-bit number reads back as itself.
pub proof fn lemma_u16_round_trip(value: u16)
    ensures
        u16_at(u16_bytes(value), 0) == value,
{
}

/// A stored 32-bit number reads back as itself.
pub proof fn lemma_u32_round_trip(value: u32)
    ensures
        u32_at(u32_bytes(value), 0) == value,
{
}

/// Four bytes are the bytes of the number they store.
pub proof fn lemma_u32_bytes_of(s: Seq<u8>, at: int)
    requires
        0 <= at,
        at + 4 <= s.len(),
    ensures
        u32_bytes(u32_at(s, at)) == s.subrange(at, at + 4),
{
    let (a, b, c, d) = (s[at], s[at + 1], s[at + 2], s[at + 3]);
    let value = u32_at(s, at);
    assert(value == a + 0x100 * b + 0x1_0000 * c + 0x100_0000 * d);
    assert(value / 0x100_0000 == d);
    assert(value / 0x1_0000 == c + 0x100 * d);
    assert((c + 0x100 * d) % 0x100 == c);
    assert(value / 0x100 == b + 0x100 * (c + 0x100 * d));
    assert((b + 0x100 * (c + 0x100 * d)) % 0x100 == b);
    assert(value % 0x100 == a);
    assert(u32_bytes(value) =~= s.subrange(at, at + 4));
}

/// The 16-bit number at `at`.
pub fn read_u16(from: &[u8], at: usize) -> (value: u16)
    requires
        at + 2 <= from@.len(),
    ensures
        value == u16_at(from@, at as int),
{
    from[at] as u16 + 0x100 * (from[at + 1] as u16)
}

/// The 32-bit number at `at`.
pub fn read_u32(from: &[u8], at: usize) -> (value: u32)
    requires
        at + 4 <= from@.len(),
    ensures
        value == u32_at(from@, at as int),
{
    from[at] as u32 + 0x100 * (from[at + 1] as u32) + 0x1_0000 * (from[at + 2] as u32) + 0x100_0000
        * (from[at + 3] as u32)
}

/// Stores a 16-bit number at `at`.
pub fn write_u16(into: &mut [u8], at: usize, value: u16)
    requires
        at + 2 <= old(into)@.len(),
    ensures
        final(into)@ == splice(old(into)@, at as int, u16_bytes(value)),
{
    into[at] = (value % 0x100) as u8;
    into[at + 1] = (value / 0x100) as u8;
    assert(into@ =~= splice(old(into)@, at as int, u16_bytes(value)));
}

/// Stores a 32-bit number at `at`.
pub fn write_u32(into: &mut [u8], at: usize, value: u32)
    requires
        at + 4 <= old(into)@.len(),
    ensures
        final(into)@ == splice(old(into)@, at as int, u32_bytes(value)),
{
    into[at] = (value % 0x100) as u8;
    into[at + 1] = (value / 0x100 % 0x100) as u8;
    into[at + 2] = (value / 0x1_0000 % 0x100) as u8;
    into[at + 3] = (value / 0x100_0000) as u8;
    assert(into@ =~= splice(old(into)@, at as int, u32_bytes(value)));
}

/// Copies all of `from` over the bytes of `into` that start at `at`.
pub fn copy_into(into: &mut [u8], at: usize, from: &[u8])
    requires
        at + from@.len() <= old(into)@.len(),
    ensures
        final(into)@ == splice(old(into)@, at as int, from@),
{
    let total: usize = into.len();
    let mut n: usize = 0;
    while n < from.len()
        invariant
            n <= from@.len(),
            total == into@.len(),
            at + from@.len() <= into@.len(),
            into@ == splice(old(into)@, at as int, from@.take(n as int)),
        decreases from@.len() - n,
    {
        into[at + n] = from[n];
        n += 1;
        assert(into@ =~= splice(old(into)@, at as int, from@.take(n as int)));
    }
    assert(from@.take(n as int) =~= from@);
}

} // verus!
