//! Byte-level building blocks: fixed-width integer encodings, the
//! lexicographic order of byte strings, and key successors.
use vstd::prelude::*;

verus! {

/// The value of eight big-endian bytes.
pub open spec fn u64_from_be_parts(
    b0: u8,
    b1: u8,
    b2: u8,
    b3: u8,
    b4: u8,
    b5: u8,
    b6: u8,
    b7: u8,
) -> u64 {
    (b0 as u64) << 56u64 | (b1 as u64) << 48u64 | (b2 as u64) << 40u64 | (b3 as u64) << 32u64 | (
    b4 as u64) << 24u64 | (b5 as u64) << 16u64 | (b6 as u64) << 8u64 | (b7 as u64)
}

/// The value of eight big-endian bytes (the first eight of `b`).
pub open spec fn u64_from_be(b: Seq<u8>) -> u64 {
    u64_from_be_parts(b[0], b[1], b[2], b[3], b[4], b[5], b[6], b[7])
}

/// The value of eight little-endian bytes (the first eight of `b`).
pub open spec fn u64_from_le(b: Seq<u8>) -> u64 {
    u64_from_be_parts(b[7], b[6], b[5], b[4], b[3], b[2], b[1], b[0])
}

/// The big-endian bytes of `x`.
pub open spec fn be_bytes_u64(x: u64) -> Seq<u8> {
    seq![
        (x >> 56u64) as u8,
        (x >> 48u64) as u8,
        (x >> 40u64) as u8,
        (x >> 32u64) as u8,
        (x >> 24u64) as u8,
        (x >> 16u64) as u8,
        (x >> 8u64) as u8,
        x as u8,
    ]
}

/// The little-endian bytes of `x`.
pub open spec fn le_bytes_u64(x: u64) -> Seq<u8> {
    seq![
        x as u8,
        (x >> 8u64) as u8,
        (x >> 16u64) as u8,
        (x >> 24u64) as u8,
        (x >> 32u64) as u8,
        (x >> 40u64) as u8,
        (x >> 48u64) as u8,
        (x >> 56u64) as u8,
    ]
}

/// The value of four big-endian bytes (the first four of `b`).
pub open spec fn u32_from_be(b: Seq<u8>) -> u32 {
    (b[0] as u32) << 24u32 | (b[1] as u32) << 16u32 | (b[2] as u32) << 8u32 | (b[3] as u32)
}

/// The big-endian bytes of `x`.
pub open spec fn be_bytes_u32(x: u32) -> Seq<u8> {
    seq![(x >> 24u32) as u8, (x >> 16u32) as u8, (x >> 8u32) as u8, x as u8]
}

proof fn lemma_u64_parts_roundtrip(x: u64)
    ensures
        u64_from_be_parts(
            (x >> 56u64) as u8,
            (x >> 48u64) as u8,
            (x >> 40u64) as u8,
            (x >> 32u64) as u8,
            (x >> 24u64) as u8,
            (x >> 16u64) as u8,
            (x >> 8u64) as u8,
            x as u8,
        ) == x,
{
    assert(((((x >> 56u64) as u8) as u64) << 56u64 | (((x >> 48u64) as u8) as u64) << 48u64 | (((x
        >> 40u64) as u8) as u64) << 40u64 | (((x >> 32u64) as u8) as u64) << 32u64 | (((x
        >> 24u64) as u8) as u64) << 24u64 | (((x >> 16u64) as u8) as u64) << 16u64 | (((x
        >> 8u64) as u8) as u64) << 8u64 | ((x as u8) as u64)) == x) by (bit_vector);
}

proof fn lemma_u64_parts_split(b0: u8, b1: u8, b2: u8, b3: u8, b4: u8, b5: u8, b6: u8, b7: u8)
    ensures
        ({
            let x = u64_from_be_parts(b0, b1, b2, b3, b4, b5, b6, b7);
            &&& (x >> 56u64) as u8 == b0
            &&& (x >> 48u64) as u8 == b1
            &&& (x >> 40u64) as u8 == b2
            &&& (x >> 32u64) as u8 == b3
            &&& (x >> 24u64) as u8 == b4
            &&& (x >> 16u64) as u8 == b5
            &&& (x >> 8u64) as u8 == b6
            &&& x as u8 == b7
        }),
{
    let x = u64_from_be_parts(b0, b1, b2, b3, b4, b5, b6, b7);
    assert({
        let x = (b0 as u64) << 56u64 | (b1 as u64) << 48u64 | (b2 as u64) << 40u64 | (b3 as u64)
            << 32u64 | (b4 as u64) << 24u64 | (b5 as u64) << 16u64 | (b6 as u64) << 8u64 | (
        b7 as u64);
        &&& (x >> 56u64) as u8 == b0
        &&& (x >> 48u64) as u8 == b1
        &&& (x >> 40u64) as u8 == b2
        &&& (x >> 32u64) as u8 == b3
        &&& (x >> 24u64) as u8 == b4
        &&& (x >> 16u64) as u8 == b5
        &&& (x >> 8u64) as u8 == b6
        &&& x as u8 == b7
    }) by (bit_vector);
}

/// Encoding a `u64` in either byte order and decoding it gives it back.
pub proof fn lemma_u64_be_roundtrip(x: u64)
    ensures
        u64_from_be(be_bytes_u64(x)) == x,
{
    lemma_u64_parts_roundtrip(x);
}

/// Little-endian encoding and decoding give a `u64` back.
pub proof fn lemma_u64_le_roundtrip(x: u64)
    ensures
        u64_from_le(le_bytes_u64(x)) == x,
{
    lemma_u64_parts_roundtrip(x);
}

/// Decoding eight bytes and encoding the value gives the bytes back.
pub proof fn lemma_u64_be_bytes_roundtrip(b: Seq<u8>)
    requires
        b.len() == 8,
    ensures
        be_bytes_u64(u64_from_be(b)) == b,
{
    lemma_u64_parts_split(b[0], b[1], b[2], b[3], b[4], b[5], b[6], b[7]);
    assert(be_bytes_u64(u64_from_be(b)) =~= b);
}

/// Encoding a `u32` big-endian and decoding it gives it back.
pub proof fn lemma_u32_be_roundtrip(x: u32)
    ensures
        u32_from_be(be_bytes_u32(x)) == x,
{
    assert(((((x >> 24u32) as u8) as u32) << 24u32 | (((x >> 16u32) as u8) as u32) << 16u32 | (((x
        >> 8u32) as u8) as u32) << 8u32 | ((x as u8) as u32)) == x) by (bit_vector);
}

/// The big-endian bytes of a `u64`.
pub fn u64_to_be_bytes(x: u64) -> (r: [u8; 8])
    ensures
        r@ == be_bytes_u64(x),
{
    let r = [
        (x >> 56u64) as u8,
        (x >> 48u64) as u8,
        (x >> 40u64) as u8,
        (x >> 32u64) as u8,
        (x >> 24u64) as u8,
        (x >> 16u64) as u8,
        (x >> 8u64) as u8,
        x as u8,
    ];
    assert(r@ =~= be_bytes_u64(x));
    r
}

/// The `u64` of eight big-endian bytes.
pub fn u64_from_be_bytes(b: [u8; 8]) -> (r: u64)
    ensures
        r == u64_from_be(b@),
{
    (b[0] as u64) << 56u64 | (b[1] as u64) << 48u64 | (b[2] as u64) << 40u64 | (b[3] as u64)
        << 32u64 | (b[4] as u64) << 24u64 | (b[5] as u64) << 16u64 | (b[6] as u64) << 8u64 | (
    b[7] as u64)
}

/// The `u64` of eight little-endian bytes.
pub fn u64_from_le_bytes(b: [u8; 8]) -> (r: u64)
    ensures
        r == u64_from_le(b@),
{
    (b[7] as u64) << 56u64 | (b[6] as u64) << 48u64 | (b[5] as u64) << 40u64 | (b[4] as u64)
        << 32u64 | (b[3] as u64) << 24u64 | (b[2] as u64) << 16u64 | (b[1] as u64) << 8u64 | (
    b[0] as u64)
}

/// The big-endian bytes of a `u32`.
pub fn u32_to_be_bytes(x: u32) -> (r: [u8; 4])
    ensures
        r@ == be_bytes_u32(x),
{
    let r = [(x >> 24u32) as u8, (x >> 16u32) as u8, (x >> 8u32) as u8, x as u8];
    assert(r@ =~= be_bytes_u32(x));
    r
}

/// The `u32` of four big-endian bytes.
pub fn u32_from_be_bytes(b: [u8; 4]) -> (r: u32)
    ensures
        r == u32_from_be(b@),
{
    (b[0] as u32) << 24u32 | (b[1] as u32) << 16u32 | (b[2] as u32) << 8u32 | (b[3] as u32)
}

/// Whether `a` comes before `b` in lexicographic order (the order of `Vec<u8>`
/// and `[u8]`): at the first position where they differ `a` holds the smaller
/// byte, or `a` is a proper prefix of `b`.
pub open spec fn lex_lt(a: Seq<u8>, b: Seq<u8>) -> bool {
    ||| exists|i: int|
        #![trigger a[i], b[i]]
        0 <= i < a.len() && i < b.len() && (forall|j: int| 0 <= j < i ==> a[j] == b[j]) && a[i]
            < b[i]
    ||| a.len() < b.len() && (forall|j: int| 0 <= j < a.len() ==> a[j] == b[j])
}

/// The three outcomes of comparing two byte strings.
#[derive(Debug, Clone, Copy, PartialEq, Eq, Structural)]
pub enum KeyOrder {
    Less,
    Equal,
    Greater,
}

/// Compares two byte strings lexicographically.
pub fn compare_bytes(a: &[u8], b: &[u8]) -> (o: KeyOrder)
    ensures
        (o == KeyOrder::Less) == lex_lt(a@, b@),
        (o == KeyOrder::Equal) == (a@ == b@),
        (o == KeyOrder::Greater) == lex_lt(b@, a@),
{
    let mut i: usize = 0;
    while i < a.len() && i < b.len() && a[i] == b[i]
        invariant
            i <= a@.len(),
            i <= b@.len(),
            forall|j: int| 0 <= j < i ==> a@[j] == b@[j],
        decreases a@.len() - i,
    {
        i = i + 1;
    }
    if i < a.len() && i < b.len() {
        if a[i] < b[i] {
            assert(a@[i as int] < b@[i as int]);
            assert(a@[i as int] != b@[i as int]);
            assert(!lex_lt(b@, a@));
            KeyOrder::Less
        } else {
            assert(b@[i as int] < a@[i as int]);
            assert(a@[i as int] != b@[i as int]);
            assert(!lex_lt(a@, b@));
            KeyOrder::Greater
        }
    } else if a.len() < b.len() {
        assert(a@ != b@);
        assert(!lex_lt(b@, a@));
        KeyOrder::Less
    } else if b.len() < a.len() {
        assert(a@ != b@);
        assert(!lex_lt(a@, b@));
        KeyOrder::Greater
    } else {
        assert(a@ =~= b@);
        assert(!lex_lt(a@, b@));
        KeyOrder::Equal
    }
}

/// The byte string one step further: the last byte grows by one, and bytes
/// that would pass 255 become 0 and carry into the byte before them. A string
/// of 255s becomes a string of zeros.
pub open spec fn incremented(k: Seq<u8>) -> Seq<u8>
    decreases k.len(),
{
    if k.len() == 0 {
        k
    } else if k.last() == 255u8 {
        incremented(k.drop_last()).push(0u8)
    } else {
        k.drop_last().push((k.last() + 1) as u8)
    }
}

/// `n` zero bytes.
pub open spec fn zero_bytes(n: nat) -> Seq<u8> {
    Seq::new(n, |i: int| 0u8)
}

/// Moves a key forward by one, with a carry from the last byte.
pub fn increment_key(key: &mut Vec<u8>)
    ensures
        final(key)@ == incremented(old(key)@),
{
    let n = key.len();
    let ghost k = old(key)@;
    let mut j = n;
    assert(k.take(n as int) =~= k);
    assert(incremented(k) + zero_bytes(0) =~= incremented(k));
    assert(key@ =~= k.take(n as int) + zero_bytes(0));
    while j > 0 && key[j - 1] == 255u8
        invariant
            j <= n,
            n == k.len(),
            key@ == k.take(j as int) + zero_bytes((n - j) as nat),
            incremented(k) == incremented(k.take(j as int)) + zero_bytes((n - j) as nat),
        decreases j,
    {
        proof {
            let t = k.take(j as int);
            assert(t.last() == 255u8);
            assert(t.drop_last() =~= k.take(j - 1));
            assert(incremented(t) == incremented(k.take(j - 1)).push(0u8));
            assert(incremented(k.take(j - 1)).push(0u8) + zero_bytes((n - j) as nat)
                =~= incremented(k.take(j - 1)) + zero_bytes((n - j + 1) as nat));
        }
        key.set(j - 1, 0u8);
        j = j - 1;
        assert(key@ =~= k.take(j as int) + zero_bytes((n - j) as nat));
    }
    if j > 0 {
        let last = key[j - 1];
        key.set(j - 1, last + 1);
        proof {
            let t = k.take(j as int);
            assert(t.drop_last() =~= k.take(j - 1));
            assert(key@ =~= t.drop_last().push((t.last() + 1) as u8) + zero_bytes(
                (n - j) as nat,
            ));
        }
    } else {
        assert(k.take(0) =~= Seq::<u8>::empty());
        assert(key@ =~= Seq::<u8>::empty() + zero_bytes(n as nat));
    }
}

/// A copy of a byte slice.
pub fn bytes_to_vec(s: &[u8]) -> (v: Vec<u8>)
    ensures
        v@ == s@,
{
    let mut v: Vec<u8> = Vec::new();
    let mut i: usize = 0;
    while i < s.len()
        invariant
            i <= s@.len(),
            v@ == s@.take(i as int),
        decreases s@.len() - i,
    {
        v.push(s[i]);
        i = i + 1;
        assert(v@ =~= s@.take(i as int));
    }
    assert(v@ =~= s@);
    v
}

/// The range of keys that start with a non-empty `prefix`: from the prefix up
/// to the prefix with its last byte one greater. An empty prefix has none; a
/// last byte of 255 cannot grow (the addition overflows).
pub fn prefix_to_range(prefix: &[u8]) -> (r: Option<std::ops::Range<Vec<u8>>>)
    requires
        prefix@.len() > 0 ==> prefix@.last() < 255,
    ensures
        prefix@.len() == 0 ==> r is None,
        prefix@.len() > 0 ==> (r matches Some(range) && range.start@ == prefix@ && range.end@
            == prefix@.drop_last().push((prefix@.last() + 1) as u8)),
{
    let mut end = bytes_to_vec(prefix);
    let n = end.len();
    if n == 0 {
        return None;
    }
    let last = end[n - 1];
    end.set(n - 1, last + 1);
    assert(end@ =~= prefix@.drop_last().push((prefix@.last() + 1) as u8));
    Some(std::ops::Range { start: bytes_to_vec(prefix), end })
}

/// Appends `s[lo..hi]` to `out`.
pub fn append_bytes(out: &mut Vec<u8>, s: &[u8], lo: usize, hi: usize)
    requires
        lo <= hi <= s@.len(),
    ensures
        final(out)@ == old(out)@ + s@.subrange(lo as int, hi as int),
{
    let mut i = lo;
    while i < hi
        invariant
            lo <= i <= hi <= s@.len(),
            out@ == old(out)@ + s@.subrange(lo as int, i as int),
        decreases hi - i,
    {
        out.push(s[i]);
        i = i + 1;
        assert(out@ =~= old(out)@ + s@.subrange(lo as int, i as int));
    }
}

} // verus!
