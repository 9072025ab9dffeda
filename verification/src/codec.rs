//! Little-endian numbers and runs of bytes, written to and read from buffers.
use byteorder::{LittleEndian, ReadBytesExt, WriteBytesExt};
use vstd::prelude::*;
use vstd::slice::slice_subrange;

verus! {

/// The `n` low bytes of `x`, lowest first.
pub open spec fn le(x: nat, n: nat) -> Seq<u8>
    decreases n,
{
    if n == 0 {
        Seq::empty()
    } else {
        seq![(x % 256) as u8] + le(x / 256, (n - 1) as nat)
    }
}

/// The number whose bytes, lowest first, are `b`.
pub open spec fn from_le(b: Seq<u8>) -> nat
    decreases b.len(),
{
    if b.len() == 0 {
        0
    } else {
        b[0] as nat + 256 * from_le(b.drop_first())
    }
}

/// The number of values that `n` bytes can hold.
pub open spec fn capacity(n: nat) -> nat
    decreases n,
{
    if n == 0 {
        1
    } else {
        256 * capacity((n - 1) as nat)
    }
}

/// Bytes make a number with the low byte first: no bytes make 0, and each byte
/// counts 256 times what it would count one place before.
pub proof fn law_bytes_make_number(b: Seq<u8>)
    ensures
        b.len() == 0 ==> from_le(b) == 0,
        b.len() > 0 ==> from_le(b) == b[0] + 256 * from_le(b.skip(1)),
{
    if b.len() > 0 {
        assert(b.skip(1) =~= b.drop_first());
    }
}

/// Two bytes make a number with the low byte first.
pub proof fn law_two_bytes(b: Seq<u8>)
    requires
        b.len() == 2,
    ensures
        from_le(b) == b[0] + 256 * b[1],
{
    reveal_with_fuel(from_le, 3);
}

/// Four bytes make a number with the low byte first.
pub proof fn law_four_bytes(b: Seq<u8>)
    requires
        b.len() == 4,
    ensures
        from_le(b) == b[0] + 256 * (b[1] + 256 * (b[2] + 256 * b[3])),
{
    reveal_with_fuel(from_le, 5);
    assert(b.drop_first()[0] == b[1]);
    assert(b.drop_first().drop_first()[0] == b[2]);
    assert(b.drop_first().drop_first().drop_first()[0] == b[3]);
}

/// A number takes up as many bytes as asked for, its low byte first and the
/// bytes of what remains without it after that.
pub proof fn law_low_byte_first(x: nat, n: nat)
    requires
        n > 0,
    ensures
        le(x, n).len() == n,
        le(x, n)[0] == x % 256,
        le(x, n).drop_first() == le(x / 256, (n - 1) as nat),
        from_le(le(x, n)) % 256 == x % 256,
{
    lemma_le_len(x, n);
    assert(le(x, n).drop_first() =~= le(x / 256, (n - 1) as nat));
    let rest = from_le(le(x / 256, (n - 1) as nat));
    assert((x % 256 + 256 * rest) % 256 == x % 256);
}

/// What the widths in use can hold.
pub proof fn lemma_capacities()
    ensures
        capacity(1) == 0x100,
        capacity(2) == 0x1_0000,
        capacity(4) == 0x1_0000_0000,
        capacity(8) == 0x1_0000_0000_0000_0000,
        capacity(16) == 0x1_0000_0000_0000_0000_0000_0000_0000_0000,
{
    reveal_with_fuel(capacity, 17);
}

/// A number takes up as many bytes as asked for.
pub proof fn lemma_le_len(x: nat, n: nat)
    ensures
        le(x, n).len() == n,
    decreases n,
{
    if n > 0 {
        lemma_le_len(x / 256, (n - 1) as nat);
    }
}

/// Reading the bytes of a number gives the number back, if it fits in them.
pub proof fn lemma_from_le_le(x: nat, n: nat)
    requires
        x < capacity(n),
    ensures
        from_le(le(x, n)) == x,
    decreases n,
{
    lemma_le_len(x, n);
    if n > 0 {
        lemma_from_le_le(x / 256, (n - 1) as nat);
        assert(le(x, n).drop_first() =~= le(x / 256, (n - 1) as nat));
    }
}

/// What `n` bytes hold is below their capacity.
pub proof fn lemma_from_le_bound(b: Seq<u8>)
    ensures
        from_le(b) < capacity(b.len()),
    decreases b.len(),
{
    if b.len() > 0 {
        lemma_from_le_bound(b.drop_first());
    }
}

/// Only the low bytes of a number are written.
pub proof fn lemma_le_low(x: nat, n: nat)
    ensures
        le(x % capacity(n), n) == le(x, n),
        capacity(n) > 0,
    decreases n,
{
    if n > 0 {
        let c = capacity((n - 1) as nat);
        lemma_le_low(x / 256, (n - 1) as nat);
        assert((x % (256 * c)) % 256 == x % 256 && (x % (256 * c)) / 256 == (x / 256) % c) by {
            vstd::arithmetic::div_mod::lemma_mod_breakdown(x as int, 256, c as int);
            let low = x % 256;
            let high = (x / 256) % c;
            assert((x % (256 * c)) == 256 * high + low);
        }
    }
}

/// The bytes of a number are those of its low part and those of its high part.
pub proof fn lemma_le_split(x: nat, m: nat, n: nat)
    ensures
        le(x, m + n) == le(x, m) + le(x / capacity(m), n),
        capacity(m) > 0,
    decreases m,
{
    lemma_le_low(x, m);
    if m == 0 {
        assert(capacity(m) == 1 && x / 1 == x);
        assert(le(x, m) + le(x / capacity(m), n) =~= le(x, n));
    } else {
        let c = capacity((m - 1) as nat);
        lemma_le_low(x / 256, (m - 1) as nat);
        lemma_le_split(x / 256, (m - 1) as nat, n);
        vstd::arithmetic::div_mod::lemma_div_denominator(x as int, 256, c as int);
        assert(x / capacity(m) == (x / 256) / c);
        assert((m + n - 1) as nat == (m - 1) as nat + n);
        assert(le(x, m + n) =~= le(x, m) + le(x / capacity(m), n));
    }
}

/// The number in the low and the high part of some bytes.
pub proof fn lemma_from_le_split(a: Seq<u8>, b: Seq<u8>)
    ensures
        from_le(a + b) == from_le(a) + capacity(a.len()) * from_le(b),
    decreases a.len(),
{
    if a.len() == 0 {
        assert(a + b =~= b);
        let c = capacity(a.len());
        assert(c * from_le(b) == from_le(b)) by (nonlinear_arith)
            requires
                c == 1,
        ;
    } else {
        lemma_from_le_split(a.drop_first(), b);
        assert((a + b).drop_first() =~= a.drop_first() + b);
        let c = capacity((a.len() - 1) as nat);
        let high = from_le(b);
        assert(256 * (c * high) == (256 * c) * high) by (nonlinear_arith);
    }
}

// Writing.

/// `WriteBytesExt::write_u16` with little-endian order on a vector, which
/// always has room: appends the two bytes of `v`.
#[verifier::external_body]
pub(crate) fn put_u16(buf: &mut Vec<u8>, v: u16)
    ensures
        final(buf)@ == old(buf)@ + le(v as nat, 2),
{
    let _ = buf.write_u16::<LittleEndian>(v);
}

/// `WriteBytesExt::write_u32` with little-endian order on a vector, which
/// always has room: appends the four bytes of `v`.
#[verifier::external_body]
pub(crate) fn put_u32(buf: &mut Vec<u8>, v: u32)
    ensures
        final(buf)@ == old(buf)@ + le(v as nat, 4),
{
    let _ = buf.write_u32::<LittleEndian>(v);
}

/// `WriteBytesExt::write_u64` with little-endian order on a vector, which
/// always has room: appends the eight bytes of `v`.
#[verifier::external_body]
pub(crate) fn put_u64(buf: &mut Vec<u8>, v: u64)
    ensures
        final(buf)@ == old(buf)@ + le(v as nat, 8),
{
    let _ = buf.write_u64::<LittleEndian>(v);
}

/// Appends the sixteen bytes of `v`.
pub(crate) fn put_u128(buf: &mut Vec<u8>, v: u128)
    ensures
        final(buf)@ == old(buf)@ + le(v as nat, 16),
{
    let low: u64 = (v % 0x1_0000_0000_0000_0000) as u64;
    let high: u64 = (v / 0x1_0000_0000_0000_0000) as u64;
    put_u64(buf, low);
    put_u64(buf, high);
    proof {
        lemma_capacities();
        lemma_le_split(v as nat, 8, 8);
        lemma_le_low(v as nat, 8);
        assert(buf@ =~= old(buf)@ + le(v as nat, 16));
    }
}

/// Appends the low two bytes of a length.
pub(crate) fn put_len16(buf: &mut Vec<u8>, len: usize)
    ensures
        final(buf)@ == old(buf)@ + le(len as nat, 2),
{
    put_u16(buf, (len % 0x1_0000) as u16);
    proof {
        lemma_capacities();
        lemma_le_low(len as nat, 2);
    }
}

/// The low four bytes of a length, as a number.
pub(crate) fn len32(len: usize) -> (r: u32)
    ensures
        r == len as nat % 0x1_0000_0000,
        le(r as nat, 4) == le(len as nat, 4),
{
    proof {
        lemma_capacities();
        lemma_le_low(len as nat, 4);
    }
    (len as u64 % 0x1_0000_0000) as u32
}

/// Appends the low four bytes of a length.
pub(crate) fn put_len32(buf: &mut Vec<u8>, len: usize)
    ensures
        final(buf)@ == old(buf)@ + le(len as nat, 4),
{
    put_u32(buf, len32(len));
}

/// Appends some bytes.
pub(crate) fn put_bytes(buf: &mut Vec<u8>, bytes: &[u8])
    ensures
        final(buf)@ == old(buf)@ + bytes@,
{
    buf.extend_from_slice(bytes);
    assert(buf@ =~= old(buf)@ + bytes@);
}

// Reading.

/// The number in the first `n` bytes, and the bytes after it; nothing if there
/// are fewer bytes.
pub open spec fn take_number(b: Seq<u8>, n: nat) -> Option<(nat, Seq<u8>)> {
    if b.len() < n {
        None
    } else {
        Some((from_le(b.take(n as int)), b.skip(n as int)))
    }
}

/// The first `n` bytes, and the bytes after them; nothing if there are fewer.
pub open spec fn take_bytes(b: Seq<u8>, n: nat) -> Option<(Seq<u8>, Seq<u8>)> {
    if b.len() < n {
        None
    } else {
        Some((b.take(n as int), b.skip(n as int)))
    }
}

/// A number is read back from what was written for it.
pub proof fn lemma_take_number(x: nat, n: nat, rest: Seq<u8>)
    requires
        x < capacity(n),
    ensures
        take_number(le(x, n) + rest, n) == Some((x, rest)),
{
    lemma_le_len(x, n);
    lemma_from_le_le(x, n);
    assert((le(x, n) + rest).take(n as int) =~= le(x, n));
    assert((le(x, n) + rest).skip(n as int) =~= rest);
}

/// Bytes are read back from what was written for them.
pub proof fn lemma_take_bytes(bytes: Seq<u8>, rest: Seq<u8>)
    ensures
        take_bytes(bytes + rest, bytes.len()) == Some((bytes, rest)),
{
    assert((bytes + rest).take(bytes.len() as int) =~= bytes);
    assert((bytes + rest).skip(bytes.len() as int) =~= rest);
}

/// `ReadBytesExt::read_u16` with little-endian order on a slice: the number in
/// the first two bytes, if there are as many.
#[verifier::external_body]
fn front_u16(b: &[u8]) -> (r: Option<u16>)
    ensures
        match r {
            Some(v) => take_number(b@, 2) == Some((v as nat, b@.skip(2))),
            None => take_number(b@, 2) is None,
        },
{
    let mut front: &[u8] = b;
    front.read_u16::<LittleEndian>().ok()
}

/// `ReadBytesExt::read_u32` with little-endian order on a slice: the number in
/// the first four bytes, if there are as many.
#[verifier::external_body]
fn front_u32(b: &[u8]) -> (r: Option<u32>)
    ensures
        match r {
            Some(v) => take_number(b@, 4) == Some((v as nat, b@.skip(4))),
            None => take_number(b@, 4) is None,
        },
{
    let mut front: &[u8] = b;
    front.read_u32::<LittleEndian>().ok()
}

/// `ReadBytesExt::read_u64` with little-endian order on a slice: the number in
/// the first eight bytes, if there are as many.
#[verifier::external_body]
fn front_u64(b: &[u8]) -> (r: Option<u64>)
    ensures
        match r {
            Some(v) => take_number(b@, 8) == Some((v as nat, b@.skip(8))),
            None => take_number(b@, 8) is None,
        },
{
    let mut front: &[u8] = b;
    front.read_u64::<LittleEndian>().ok()
}

/// The bytes after the first `n`.
fn rest_of(b: &[u8], n: usize) -> (r: &[u8])
    requires
        n <= b@.len(),
    ensures
        r@ == b@.skip(n as int),
{
    let r: &[u8] = slice_subrange(b, n, b.len());
    assert(r@ =~= b@.skip(n as int));
    r
}

/// Reads one byte.
pub(crate) fn get_u8(b: &[u8]) -> (r: Option<(u8, &[u8])>)
    ensures
        match r {
            Some((v, rest)) => take_number(b@, 1) == Some((v as nat, rest@)),
            None => take_number(b@, 1) is None,
        },
{
    if b.len() == 0 {
        None
    } else {
        proof {
            reveal_with_fuel(from_le, 2);
            assert(b@.take(1).drop_first() =~= Seq::<u8>::empty());
        }
        Some((b[0], rest_of(b, 1)))
    }
}

/// Reads a two byte number.
pub(crate) fn get_u16(b: &[u8]) -> (r: Option<(u16, &[u8])>)
    ensures
        match r {
            Some((v, rest)) => take_number(b@, 2) == Some((v as nat, rest@)),
            None => take_number(b@, 2) is None,
        },
{
    match front_u16(b) {
        Some(v) => Some((v, rest_of(b, 2))),
        None => None,
    }
}

/// Reads a four byte number.
pub(crate) fn get_u32(b: &[u8]) -> (r: Option<(u32, &[u8])>)
    ensures
        match r {
            Some((v, rest)) => take_number(b@, 4) == Some((v as nat, rest@)),
            None => take_number(b@, 4) is None,
        },
{
    match front_u32(b) {
        Some(v) => Some((v, rest_of(b, 4))),
        None => None,
    }
}

/// Reads an eight byte number.
pub(crate) fn get_u64(b: &[u8]) -> (r: Option<(u64, &[u8])>)
    ensures
        match r {
            Some((v, rest)) => take_number(b@, 8) == Some((v as nat, rest@)),
            None => take_number(b@, 8) is None,
        },
{
    match front_u64(b) {
        Some(v) => Some((v, rest_of(b, 8))),
        None => None,
    }
}

/// Reads a sixteen byte number.
pub(crate) fn get_u128(b: &[u8]) -> (r: Option<(u128, &[u8])>)
    ensures
        match r {
            Some((v, rest)) => take_number(b@, 16) == Some((v as nat, rest@)),
            None => take_number(b@, 16) is None,
        },
{
    if b.len() < 16 {
        return None;
    }
    match front_u64(b) {
        Some(low) => match front_u64(rest_of(b, 8)) {
            Some(high) => {
                proof {
                    let front = b@.take(16);
                    assert(front =~= b@.take(8) + b@.skip(8).take(8));
                    lemma_from_le_split(b@.take(8), b@.skip(8).take(8));
                    lemma_capacities();
                }
                Some((high as u128 * 0x1_0000_0000_0000_0000 + low as u128, rest_of(b, 16)))
            },
            None => None,
        },
        None => None,
    }
}

/// Reads `n` bytes.
pub(crate) fn get_bytes(b: &[u8], n: usize) -> (r: Option<(Vec<u8>, &[u8])>)
    ensures
        match r {
            Some((v, rest)) => take_bytes(b@, n as nat) == Some((v@, rest@)),
            None => take_bytes(b@, n as nat) is None,
        },
{
    if b.len() < n {
        None
    } else {
        let mut v: Vec<u8> = Vec::new();
        put_bytes(&mut v, slice_subrange(b, 0, n));
        assert(v@ =~= b@.take(n as int));
        Some((v, rest_of(b, n)))
    }
}

} // verus!
