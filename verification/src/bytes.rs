//! Fixed-width and variable-width integers as they appear inside keys and
//! values: big-endian `u32` and `u64`, little-endian `i64` counters, and
//! base-128 varints holding a `u32`.

use vstd::prelude::*;

verus! {

/// The big-endian `u32` held by the four bytes of `s` that start at `at`.
pub open spec fn be_u32(s: Seq<u8>, at: int) -> u32 {
    (s[at] * 0x100_0000 + s[at + 1] * 0x1_0000 + s[at + 2] * 0x100 + s[at + 3]) as u32
}

/// The big-endian `u64` held by the eight bytes of `s` that start at `at`.
pub open spec fn be_u64(s: Seq<u8>, at: int) -> u64 {
    (be_u32(s, at) * 0x1_0000_0000 + be_u32(s, at + 4)) as u64
}

/// The big-endian `u32` at `at`, where `s` is long enough to hold one there.
pub open spec fn be_u32_at(s: Seq<u8>, at: int) -> Option<u32> {
    if 0 <= at && at + 4 <= s.len() {
        Some(be_u32(s, at))
    } else {
        None
    }
}

/// The big-endian `u64` at `at`, where `s` is long enough to hold one there.
pub open spec fn be_u64_at(s: Seq<u8>, at: int) -> Option<u64> {
    if 0 <= at && at + 8 <= s.len() {
        Some(be_u64(s, at))
    } else {
        None
    }
}

/// The unsigned number whose little-endian bytes are the first eight of `s`.
pub open spec fn le_u64(s: Seq<u8>) -> int {
    s[0] + s[1] * 0x100 + s[2] * 0x1_0000 + s[3] * 0x100_0000 + s[4] * 0x1_0000_0000 + s[5]
        * 0x100_0000_0000 + s[6] * 0x1_0000_0000_0000 + s[7] * 0x100_0000_0000_0000
}

/// The signed 64-bit counter that a value of exactly eight bytes holds, in
/// little-endian two's complement; no other length holds one.
pub open spec fn le_i64(s: Seq<u8>) -> Option<i64> {
    if s.len() == 8 {
        let v = le_u64(s);
        if v < 0x8000_0000_0000_0000 {
            Some(v as i64)
        } else {
            Some((v - 0x1_0000_0000_0000_0000) as i64)
        }
    } else {
        None
    }
}

/// The number spelled by the base-128 digits of `s` from index `i` on, lowest
/// digit first. A byte under 128 is the last digit; a byte of 128 or more
/// contributes its low seven bits and announces another digit. Digits are
/// taken from the first five bytes only.
pub open spec fn varint_from(s: Seq<u8>, i: int) -> Option<int>
    decreases 5 - i,
{
    if i < 0 || i >= 5 || i >= s.len() {
        None
    } else if s[i] < 128 {
        Some(s[i] as int)
    } else {
        match varint_from(s, i + 1) {
            Some(rest) => Some(s[i] % 128 + 128 * rest),
            None => None,
        }
    }
}

/// The `u32` that the varint at the front of `s` holds. Five digits carry 35
/// bits: the top three are dropped. Bytes after the last digit are ignored.
pub open spec fn varint_u32(s: Seq<u8>) -> Option<u32> {
    match varint_from(s, 0) {
        Some(v) => Some((v % 0x1_0000_0000) as u32),
        None => None,
    }
}

/// The number of values that `n` base-128 digits can spell.
pub open spec fn varint_span(n: int) -> int
    decreases n,
{
    if n <= 0 {
        1
    } else {
        128 * varint_span(n - 1)
    }
}

/// A varint read from digit `i` on stays under the span of the digits left.
pub proof fn lemma_varint_bound(s: Seq<u8>, i: int)
    requires
        0 <= i <= 5,
    ensures
        varint_from(s, i) matches Some(v) ==> 0 <= v < varint_span(5 - i),
        1 <= varint_span(5 - i) <= 0x8_0000_0000,
    decreases 5 - i,
{
    reveal_with_fuel(varint_span, 6);
    if i < 5 && i < s.len() && s[i] >= 128 {
        lemma_varint_bound(s, i + 1);
    }
}

/// Reads the big-endian `u32` at `at`.
pub fn read_be_u32(s: &[u8], at: usize) -> (r: Option<u32>)
    ensures
        r == be_u32_at(s@, at as int),
{
    if at > s.len() || s.len() - at < 4 {
        return None;
    }
    let b0: u32 = s[at] as u32;
    let b1: u32 = s[at + 1] as u32;
    let b2: u32 = s[at + 2] as u32;
    let b3: u32 = s[at + 3] as u32;
    Some(b0 * 0x100_0000 + b1 * 0x1_0000 + b2 * 0x100 + b3)
}

/// Reads the big-endian `u64` at `at`.
pub fn read_be_u64(s: &[u8], at: usize) -> (r: Option<u64>)
    ensures
        r == be_u64_at(s@, at as int),
{
    if at > s.len() || s.len() - at < 8 {
        return None;
    }
    let hi = read_be_u32(s, at);
    let lo = read_be_u32(s, at + 4);
    match (hi, lo) {
        (Some(hi), Some(lo)) => Some((hi as u64) * 0x1_0000_0000 + (lo as u64)),
        _ => None,
    }
}

/// Reads a signed counter: the value must be exactly eight bytes long.
pub fn read_le_i64(s: &[u8]) -> (r: Option<i64>)
    ensures
        r == le_i64(s@),
{
    if s.len() != 8 {
        return None;
    }
    let low: u64 = (s[0] as u64) + (s[1] as u64) * 0x100 + (s[2] as u64) * 0x1_0000 + (s[3] as u64)
        * 0x100_0000;
    let high: u64 = (s[4] as u64) + (s[5] as u64) * 0x100 + (s[6] as u64) * 0x1_0000 + (
    s[7] as u64) * 0x100_0000;
    let v: u64 = low + high * 0x1_0000_0000;
    if v < 0x8000_0000_0000_0000 {
        Some(v as i64)
    } else {
        let w: u64 = v - 0x8000_0000_0000_0000;
        Some((w as i64) + i64::MIN)
    }
}

fn read_varint_from(s: &[u8], i: usize) -> (r: Option<u64>)
    requires
        i <= 5,
    ensures
        r matches Some(v) ==> varint_from(s@, i as int) == Some(v as int),
        r is None ==> varint_from(s@, i as int) is None,
    decreases 5 - i,
{
    if i >= 5 || i >= s.len() {
        return None;
    }
    let b: u8 = s[i];
    if b < 128 {
        Some(b as u64)
    } else {
        proof {
            lemma_varint_bound(s@, i as int + 1);
        }
        match read_varint_from(s, i + 1) {
            Some(rest) => Some((b % 128) as u64 + 128 * rest),
            None => None,
        }
    }
}

/// Reads the varint at the front of `s` as a `u32`.
pub fn read_varint_u32(s: &[u8]) -> (r: Option<u32>)
    ensures
        r == varint_u32(s@),
{
    match read_varint_from(s, 0) {
        Some(v) => Some((v % 0x1_0000_0000) as u32),
        None => None,
    }
}

/// The four bytes that hold `v` in big-endian order.
pub open spec fn u32_be_bytes(v: u32) -> Seq<u8> {
    seq![
        (v / 0x100_0000) as u8,
        (v / 0x1_0000 % 0x100) as u8,
        (v / 0x100 % 0x100) as u8,
        (v % 0x100) as u8,
    ]
}

/// The eight bytes that hold `v` in big-endian order.
pub open spec fn u64_be_bytes(v: u64) -> Seq<u8> {
    u32_be_bytes((v / 0x1_0000_0000) as u32) + u32_be_bytes((v % 0x1_0000_0000) as u32)
}

/// The `n` lowest base-256 digits of `u`, lowest first.
pub open spec fn le_digits(u: int, n: nat) -> Seq<u8>
    decreases n,
{
    if n == 0 {
        Seq::empty()
    } else {
        seq![(u % 0x100) as u8] + le_digits(u / 0x100, (n - 1) as nat)
    }
}

/// The eight bytes that hold the counter `v` in little-endian two's
/// complement.
pub open spec fn i64_le_bytes(v: i64) -> Seq<u8> {
    if v < 0 {
        le_digits(v + 0x1_0000_0000_0000_0000, 8)
    } else {
        le_digits(v as int, 8)
    }
}

/// The shortest varint that holds `v`: base-128 digits, lowest first, each
/// but the last with its high bit set.
pub open spec fn varint_bytes(v: int) -> Seq<u8>
    decreases v,
{
    if v < 128 {
        seq![v as u8]
    } else {
        seq![(v % 128 + 128) as u8] + varint_bytes(v / 128)
    }
}

/// A big-endian `u32` is read back from its bytes, wherever they stand.
pub proof fn lemma_be_u32_round_trip(s: Seq<u8>, at: int, v: u32)
    requires
        0 <= at,
        at + 4 <= s.len(),
        s.subrange(at, at + 4) == u32_be_bytes(v),
    ensures
        be_u32_at(s, at) == Some(v),
{
    let b = u32_be_bytes(v);
    assert(s[at] == b[0]);
    assert(s[at + 1] == b[1]);
    assert(s[at + 2] == b[2]);
    assert(s[at + 3] == b[3]);
}

/// A big-endian `u64` is read back from its bytes, wherever they stand.
pub proof fn lemma_be_u64_round_trip(s: Seq<u8>, at: int, v: u64)
    requires
        0 <= at,
        at + 8 <= s.len(),
        s.subrange(at, at + 8) == u64_be_bytes(v),
    ensures
        be_u64_at(s, at) == Some(v),
{
    let hi = (v / 0x1_0000_0000) as u32;
    let lo = (v % 0x1_0000_0000) as u32;
    let b = u64_be_bytes(v);
    assert(s.subrange(at, at + 4) =~= u32_be_bytes(hi)) by {
        assert forall|i: int| 0 <= i < 4 implies s.subrange(at, at + 4)[i] == u32_be_bytes(
            hi,
        )[i] by {
            assert(s.subrange(at, at + 8)[i] == b[i]);
        }
    }
    assert(s.subrange(at + 4, at + 8) =~= u32_be_bytes(lo)) by {
        assert forall|i: int| 0 <= i < 4 implies s.subrange(at + 4, at + 8)[i] == u32_be_bytes(
            lo,
        )[i] by {
            assert(s.subrange(at, at + 8)[i + 4] == b[i + 4]);
        }
    }
    lemma_be_u32_round_trip(s, at, hi);
    lemma_be_u32_round_trip(s, at + 4, lo);
}

/// Eight base-256 digits spell the number they were taken from.
pub proof fn lemma_le_digits_value(u: int)
    requires
        0 <= u < 0x1_0000_0000_0000_0000,
    ensures
        le_digits(u, 8).len() == 8,
        le_u64(le_digits(u, 8)) == u,
{
    reveal_with_fuel(le_digits, 9);
    let u1 = u / 0x100;
    let u2 = u1 / 0x100;
    let u3 = u2 / 0x100;
    let u4 = u3 / 0x100;
    let u5 = u4 / 0x100;
    let u6 = u5 / 0x100;
    let u7 = u6 / 0x100;
    let s = le_digits(u, 8);
    assert(s =~= seq![
        (u % 0x100) as u8,
        (u1 % 0x100) as u8,
        (u2 % 0x100) as u8,
        (u3 % 0x100) as u8,
        (u4 % 0x100) as u8,
        (u5 % 0x100) as u8,
        (u6 % 0x100) as u8,
        (u7 % 0x100) as u8,
    ]);
    assert(u7 < 0x100);
}

/// A counter is read back from its bytes.
pub proof fn lemma_le_i64_round_trip(v: i64)
    ensures
        i64_le_bytes(v).len() == 8,
        le_i64(i64_le_bytes(v)) == Some(v),
{
    if v < 0 {
        lemma_le_digits_value(v + 0x1_0000_0000_0000_0000);
    } else {
        lemma_le_digits_value(v as int);
    }
}

/// The values that a varint can still hold once `i` digits are written.
pub open spec fn varint_room(i: int) -> int {
    if i <= 0 {
        0x1_0000_0000
    } else if i == 1 {
        0x200_0000
    } else if i == 2 {
        0x4_0000
    } else if i == 3 {
        0x800
    } else {
        0x10
    }
}

/// A varint is read back from its bytes, whatever follows them.
pub proof fn lemma_varint_round_trip(v: u32, rest: Seq<u8>)
    ensures
        1 <= varint_bytes(v as int).len() <= 5,
        varint_u32(varint_bytes(v as int) + rest) == Some(v),
{
    lemma_varint_digits(v as int, 0, Seq::empty(), rest);
    assert(Seq::<u8>::empty() + varint_bytes(v as int) + rest =~= varint_bytes(v as int) + rest);
}

/// The digits of `v`, standing behind `i` other bytes, are read as `v`.
proof fn lemma_varint_digits(v: int, i: int, front: Seq<u8>, rest: Seq<u8>)
    requires
        0 <= i <= 4,
        front.len() == i,
        0 <= v < varint_room(i),
    ensures
        1 <= varint_bytes(v).len() <= 5 - i,
        varint_from(front + varint_bytes(v) + rest, i) == Some(v),
    decreases v,
{
    let s = front + varint_bytes(v) + rest;
    assert(s[i] == varint_bytes(v)[0]);
    if v >= 128 {
        let digit = (v % 128 + 128) as u8;
        lemma_varint_digits(v / 128, i + 1, front.push(digit), rest);
        assert(front.push(digit) + varint_bytes(v / 128) + rest =~= s);
    }
}

/// Appends the big-endian bytes of `v`.
pub fn write_be_u32(out: &mut Vec<u8>, v: u32)
    ensures
        final(out)@ == old(out)@ + u32_be_bytes(v),
{
    out.push((v / 0x100_0000) as u8);
    out.push((v / 0x1_0000 % 0x100) as u8);
    out.push((v / 0x100 % 0x100) as u8);
    out.push((v % 0x100) as u8);
    assert(out@ =~= old(out)@ + u32_be_bytes(v));
}

/// Appends the big-endian bytes of `v`.
pub fn write_be_u64(out: &mut Vec<u8>, v: u64)
    ensures
        final(out)@ == old(out)@ + u64_be_bytes(v),
{
    write_be_u32(out, (v / 0x1_0000_0000) as u32);
    write_be_u32(out, (v % 0x1_0000_0000) as u32);
    assert(out@ =~= old(out)@ + u64_be_bytes(v));
}

/// Appends the shortest varint that holds `v`.
pub fn write_varint_u32(out: &mut Vec<u8>, v: u32)
    ensures
        final(out)@ == old(out)@ + varint_bytes(v as int),
{
    let mut left: u32 = v;
    let ghost done: Seq<u8> = Seq::empty();
    assert(out@ + varint_bytes(left as int) =~= old(out)@ + varint_bytes(v as int));
    while left >= 128
        invariant
            out@ + varint_bytes(left as int) == old(out)@ + varint_bytes(v as int),
        decreases left,
    {
        let digit: u8 = (left % 128 + 128) as u8;
        assert(out@.push(digit) + varint_bytes((left / 128) as int) =~= out@ + varint_bytes(
            left as int,
        ));
        out.push(digit);
        left = left / 128;
    }
    assert(out@.push(left as u8) =~= out@ + varint_bytes(left as int));
    out.push(left as u8);
}

/// Appends the eight bytes of the counter `v`.
pub fn write_le_i64(out: &mut Vec<u8>, v: i64)
    ensures
        final(out)@ == old(out)@ + i64_le_bytes(v),
{
    let start: u64 = if v < 0 {
        ((v - i64::MIN) as u64) + 0x8000_0000_0000_0000
    } else {
        v as u64
    };
    let mut left: u64 = start;
    let mut i: usize = 0;
    assert(out@ + le_digits(left as int, 8) =~= old(out)@ + i64_le_bytes(v));
    while i < 8
        invariant
            i <= 8,
            out@ + le_digits(left as int, (8 - i) as nat) == old(out)@ + i64_le_bytes(v),
        decreases 8 - i,
    {
        let digit: u8 = (left % 0x100) as u8;
        assert(out@.push(digit) + le_digits((left / 0x100) as int, (8 - i - 1) as nat) =~= out@
            + le_digits(left as int, (8 - i) as nat));
        out.push(digit);
        left = left / 0x100;
        i = i + 1;
    }
    assert(out@ + le_digits(left as int, 0) =~= out@);
}

} // verus!
