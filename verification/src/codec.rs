//! The wire framing shared by the log server and its clients.
//!
//! A frame is a sequence of fields. Each field is a 32-byte length prefix
//! followed by the field's bytes. The prefix holds the field's byte length one
//! bit per byte, least significant bit first.
use vstd::prelude::*;
use vstd::arithmetic::power2::{pow2, lemma_pow2_unfold, lemma_pow2_pos, lemma2_to64};
use vstd::arithmetic::div_mod::lemma_mod_breakdown;
use vstd::bits::{lemma_u32_shr_is_div, lemma_u64_shl_is_mul, lemma_u64_pow2_no_overflow};

verus! {

/// The 32 bytes that `append32Number` writes for `value`: bit `i` of the value
/// in byte `i`.
pub open spec fn bits32(value: u32) -> Seq<u8> {
    Seq::new(32, |i: int| ((value >> (i as u32)) & 1u32) as u8)
}

/// The number that a length prefix stands for: the sum of `byte[i] * 2^i`.
pub open spec fn bits_value(s: Seq<u8>) -> nat
    decreases s.len(),
{
    if s.len() == 0 {
        0
    } else {
        bits_value(s.drop_last()) + (s.last() as nat) * pow2((s.len() - 1) as nat)
    }
}

/// One field on the wire: its length prefix, then its bytes. A length that
/// does not fit in 32 bits is cut to its low 32 bits, as the senders do.
pub open spec fn field_bytes(payload: Seq<u8>) -> Seq<u8> {
    bits32(payload.len() as u32) + payload
}

/// A whole frame: its fields one after another.
pub open spec fn frame(fields: Seq<Seq<u8>>) -> Seq<u8>
    decreases fields.len(),
{
    if fields.len() == 0 {
        Seq::empty()
    } else {
        frame(fields.drop_last()) + field_bytes(fields.last())
    }
}

/// Every field of `fields` is short enough for its length to survive the
/// 32-bit prefix.
pub open spec fn fields_fit(fields: Seq<Seq<u8>>) -> bool {
    forall|k: int| 0 <= k < fields.len() ==> (#[trigger] fields[k]).len() <= u32::MAX
}

/// The field that starts at `pos` in `bytes`, and the position just after it,
/// if the bytes hold a whole field there.
pub open spec fn field_at(bytes: Seq<u8>, pos: int) -> Option<(Seq<u8>, int)> {
    if 0 <= pos && pos + 32 <= bytes.len() {
        let n = bits_value(bytes.subrange(pos, pos + 32));
        if pos + 32 + n <= bytes.len() {
            Some((bytes.subrange(pos + 32, pos + 32 + n), pos + 32 + n))
        } else {
            None
        }
    } else {
        None
    }
}

/// The first `count` fields of `bytes` and the number of bytes they take, if
/// the bytes begin with that many whole fields.
pub open spec fn fields_from(bytes: Seq<u8>, count: nat) -> Option<(Seq<Seq<u8>>, int)>
    decreases count,
{
    if count == 0 {
        Some((Seq::empty(), 0))
    } else {
        match fields_from(bytes, (count - 1) as nat) {
            Some((fs, p)) => match field_at(bytes, p) {
                Some((f, q)) => Some((fs.push(f), q)),
                None => None,
            },
            None => None,
        }
    }
}

/// Appends the 32 bits of `value` to `buf`, one byte per bit, least
/// significant first.
#[allow(non_snake_case)]
pub fn append32Number(value: u32, buf: &mut Vec<u8>)
    ensures
        final(buf)@ == old(buf)@ + bits32(value),
{
    let ghost start = buf@;
    let mut i: u32 = 0;
    while i < 32
        invariant
            i <= 32,
            buf@.len() == start.len() + i,
            buf@.subrange(0, start.len() as int) == start,
            forall|j: int| 0 <= j < i ==> #[trigger] buf@[start.len() + j] == bits32(value)[j],
        decreases 32 - i,
    {
        let b = (value >> i) & 1;
        assert(b <= 1) by (bit_vector)
            requires
                b == (value >> i) & 1,
        ;
        buf.push(b as u8);
        i = i + 1;
    }
    assert forall|j: int| 0 <= j < buf@.len() implies #[trigger] buf@[j] == (start + bits32(value))[j] by {
        if j >= start.len() {
            assert(buf@[start.len() + (j - start.len())] == bits32(value)[j - start.len()]);
        } else {
            assert(buf@.subrange(0, start.len() as int)[j] == start[j]);
        }
    }
    assert(buf@ =~= start + bits32(value));
}

/// Appends the bytes of `bytes` to `buf`.
pub fn append_bytes(buf: &mut Vec<u8>, bytes: &[u8])
    ensures
        final(buf)@ == old(buf)@ + bytes@,
{
    let ghost start = buf@;
    let mut i: usize = 0;
    while i < bytes.len()
        invariant
            i <= bytes@.len(),
            buf@ == start + bytes@.subrange(0, i as int),
        decreases bytes@.len() - i,
    {
        buf.push(bytes[i]);
        i = i + 1;
        assert(buf@ =~= start + bytes@.subrange(0, i as int));
    }
    assert(bytes@.subrange(0, bytes@.len() as int) =~= bytes@);
}

/// Appends one field (its length prefix, then its bytes) to `buf`.
pub fn append_field(buf: &mut Vec<u8>, bytes: &[u8])
    ensures
        final(buf)@ == old(buf)@ + field_bytes(bytes@),
{
    let n = bytes.len();
    append32Number(n as u32, buf);
    append_bytes(buf, bytes);
    assert(buf@ =~= old(buf)@ + field_bytes(bytes@));
}

proof fn lemma_bits_value_bound(s: Seq<u8>)
    ensures
        bits_value(s) < 256 * pow2(s.len()),
    decreases s.len(),
{
    if s.len() == 0 {
        lemma_pow2_pos(0);
    } else {
        lemma_bits_value_bound(s.drop_last());
        let m = (s.len() - 1) as nat;
        lemma_pow2_unfold(s.len());
        assert((s.last() as nat) * pow2(m) <= 255 * pow2(m)) by (nonlinear_arith)
            requires
                s.last() <= 255,
        ;
    }
}

/// A 32-byte length prefix stands for a number below 2^40.
pub proof fn lemma_prefix_value_bound(s: Seq<u8>)
    requires
        s.len() == 32,
    ensures
        bits_value(s) < 0x100_0000_0000,
{
    lemma_bits_value_bound(s);
    lemma2_to64();
}

proof fn lemma_bits_value_prefix_le(s: Seq<u8>, k: int)
    requires
        0 <= k <= s.len(),
    ensures
        bits_value(s.subrange(0, k)) <= bits_value(s),
    decreases s.len() - k,
{
    if k < s.len() {
        lemma_bits_value_prefix_le(s, k + 1);
        let t = s.subrange(0, k + 1);
        assert(t.drop_last() =~= s.subrange(0, k));
    } else {
        assert(s.subrange(0, k) =~= s);
    }
}

proof fn lemma_bits32_prefix(value: u32, k: nat)
    requires
        k <= 32,
    ensures
        bits_value(bits32(value).subrange(0, k as int)) == (value as nat) % pow2(k),
    decreases k,
{
    if k == 0 {
        lemma_pow2_pos(0);
        assert(pow2(0) == 1) by {
            lemma2_to64();
        }
    } else {
        let j = (k - 1) as nat;
        lemma_bits32_prefix(value, j);
        let t = bits32(value).subrange(0, k as int);
        assert(t.drop_last() =~= bits32(value).subrange(0, j as int));
        let jj = j as u32;
        lemma_u32_shr_is_div(value, jj);
        let sh = value >> jj;
        assert((sh & 1u32) == sh % 2) by (bit_vector);
        assert(t.last() == ((value >> jj) & 1u32) as u8);
        lemma_pow2_pos(j);
        lemma_pow2_unfold(k);
        lemma_mod_breakdown(value as int, pow2(j) as int, 2);
        assert(pow2(j) * 2 == pow2(k));
        assert((value as nat) % pow2(k) == pow2(j) * (((value as nat) / pow2(j)) % 2) + (value as nat) % pow2(j));
    }
}

/// Reading a length prefix back gives the number that was written.
pub proof fn lemma_bits32_roundtrip(value: u32)
    ensures
        bits_value(bits32(value)) == value,
{
    lemma_bits32_prefix(value, 32);
    assert(bits32(value).subrange(0, 32) =~= bits32(value));
    lemma2_to64();
}

/// The number a length prefix stands for: `sum(buf[i] * 2^i)`.
pub fn decode_number(buf: &[u8]) -> (number: u64)
    requires
        buf@.len() <= 64,
        bits_value(buf@) <= u64::MAX,
    ensures
        number == bits_value(buf@),
{
    let mut number: u64 = 0;
    let mut i: usize = 0;
    while i < buf.len()
        invariant
            i <= buf@.len(),
            buf@.len() <= 64,
            bits_value(buf@) <= u64::MAX,
            number == bits_value(buf@.subrange(0, i as int)),
        decreases buf@.len() - i,
    {
        proof {
            lemma_bits_value_prefix_le(buf@, i + 1);
            let t = buf@.subrange(0, i + 1);
            assert(t.drop_last() =~= buf@.subrange(0, i as int));
            lemma_u64_pow2_no_overflow(i as nat);
            lemma_u64_shl_is_mul(1, i as u64);
        }
        let item = buf[i] as u64;
        let power: u64 = 1u64 << (i as u64);
        number = number + item * power;
        i = i + 1;
    }
    assert(buf@.subrange(0, buf@.len() as int) =~= buf@);
    number
}

proof fn lemma_field_at_extend(a: Seq<u8>, b: Seq<u8>, pos: int)
    requires
        field_at(a, pos) is Some,
    ensures
        field_at(a + b, pos) == field_at(a, pos),
{
    let ab = a + b;
    assert(ab.subrange(pos, pos + 32) =~= a.subrange(pos, pos + 32));
    let n = bits_value(a.subrange(pos, pos + 32));
    assert(ab.subrange(pos + 32, pos + 32 + n) =~= a.subrange(pos + 32, pos + 32 + n));
}

/// Bytes after a run of whole fields do not change how those fields read.
pub proof fn lemma_fields_from_extend(a: Seq<u8>, b: Seq<u8>, count: nat)
    requires
        fields_from(a, count) is Some,
    ensures
        fields_from(a + b, count) == fields_from(a, count),
    decreases count,
{
    if count > 0 {
        lemma_fields_from_extend(a, b, (count - 1) as nat);
        let (fs, p) = fields_from(a, (count - 1) as nat)->Some_0;
        lemma_field_at_extend(a, b, p);
    }
}

/// A frame reads back as the fields it was made of, whatever follows it,
/// provided every field is short enough for its 32-bit length prefix.
pub proof fn lemma_frame_roundtrip(fields: Seq<Seq<u8>>, rest: Seq<u8>)
    requires
        fields_fit(fields),
    ensures
        fields_from(frame(fields) + rest, fields.len()) == Some((fields, frame(fields).len() as int)),
    decreases fields.len(),
{
    if fields.len() == 0 {
        assert(Seq::<Seq<u8>>::empty() =~= fields);
    } else {
        let init = fields.drop_last();
        let last = fields.last();
        assert(fields_fit(init)) by {
            assert forall|k: int| 0 <= k < init.len() implies (#[trigger] init[k]).len() <= u32::MAX by {
                assert(init[k] == fields[k]);
            }
        }
        assert(last.len() <= u32::MAX) by {
            assert(fields[fields.len() - 1] == last);
        }
        let tail = field_bytes(last) + rest;
        lemma_frame_roundtrip(init, tail);
        let whole = frame(fields) + rest;
        assert(whole =~= frame(init) + tail);
        let p = frame(init).len() as int;
        assert(whole.subrange(p, p + 32) =~= bits32(last.len() as u32));
        lemma_bits32_roundtrip(last.len() as u32);
        assert(whole.subrange(p + 32, p + 32 + last.len()) =~= last);
        assert(field_at(whole, p) == Some((last, p + 32 + last.len())));
        assert(init.push(last) =~= fields);
    }
}

} // verus!
