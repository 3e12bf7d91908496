//! Little-endian numbers and length-prefixed strings.

use crate::error::VectorDbError;
use crate::float::F32;
use vstd::arithmetic::power::{lemma_pow_positive, pow};
use vstd::prelude::*;
use vstd::utf8::{
    decode_utf8, encode_utf8, encode_utf8_decode_utf8, encode_utf8_valid_utf8, valid_utf8,
};

verus! {

/// The `n` low bytes of `x`, the least significant first.
pub open spec fn le_bytes(x: nat, n: nat) -> Seq<u8>
    decreases n,
{
    if n == 0 {
        Seq::empty()
    } else {
        seq![(x % 256) as u8] + le_bytes(x / 256, (n - 1) as nat)
    }
}

/// The number whose bytes are `bytes`, the least significant first.
pub open spec fn le_value(bytes: Seq<u8>) -> nat
    decreases bytes.len(),
{
    if bytes.len() == 0 {
        0
    } else {
        bytes[0] as nat + 256 * le_value(bytes.skip(1))
    }
}

/// A string on the wire: the length of its UTF-8 form in four bytes, then that
/// form.
pub open spec fn string_bytes(text: Seq<char>) -> Seq<u8> {
    le_bytes(encode_utf8(text).len(), 4) + encode_utf8(text)
}

/// What a reader at `pos` gets for a value: the value and the position after
/// it, or an error.
pub type Reading<T> = Result<(T, nat), VectorDbError>;

/// The next `n` bytes of `buf` at `pos`.
pub open spec fn parse_take(buf: Seq<u8>, pos: nat, n: nat) -> Reading<Seq<u8>> {
    if pos + n > usize::MAX {
        Err(VectorDbError::Corrupt("length overflow"))
    } else if pos + n > buf.len() {
        Err(VectorDbError::Corrupt("unexpected end of file"))
    } else {
        Ok((buf.subrange(pos as int, (pos + n) as int), pos + n))
    }
}

pub open spec fn parse_number(buf: Seq<u8>, pos: nat, n: nat) -> Reading<nat> {
    match parse_take(buf, pos, n) {
        Err(e) => Err(e),
        Ok((bytes, end)) => Ok((le_value(bytes), end)),
    }
}

pub open spec fn parse_u8(buf: Seq<u8>, pos: nat) -> Reading<u8> {
    match parse_number(buf, pos, 1) {
        Err(e) => Err(e),
        Ok((value, end)) => Ok((value as u8, end)),
    }
}

pub open spec fn parse_u32(buf: Seq<u8>, pos: nat) -> Reading<u32> {
    match parse_number(buf, pos, 4) {
        Err(e) => Err(e),
        Ok((value, end)) => Ok((value as u32, end)),
    }
}

pub open spec fn parse_u64(buf: Seq<u8>, pos: nat) -> Reading<u64> {
    match parse_number(buf, pos, 8) {
        Err(e) => Err(e),
        Ok((value, end)) => Ok((value as u64, end)),
    }
}

pub open spec fn parse_float(buf: Seq<u8>, pos: nat) -> Reading<F32> {
    match parse_u32(buf, pos) {
        Err(e) => Err(e),
        Ok((bits, end)) => Ok((F32 { bits }, end)),
    }
}

pub open spec fn parse_string(buf: Seq<u8>, pos: nat) -> Reading<Seq<char>> {
    match parse_u32(buf, pos) {
        Err(e) => Err(e),
        Ok((len, start)) => match parse_take(buf, start, len as nat) {
            Err(e) => Err(e),
            Ok((bytes, end)) => if valid_utf8(bytes) {
                Ok((decode_utf8(bytes), end))
            } else {
                Err(VectorDbError::Corrupt("invalid utf-8 text"))
            },
        },
    }
}

/// Where a reader of a string stands in the end, whether it got one or failed.
pub open spec fn string_stop(buf: Seq<u8>, pos: nat) -> nat {
    match parse_u32(buf, pos) {
        Err(_) => pos,
        Ok((len, start)) => match parse_take(buf, start, len as nat) {
            Err(_) => start,
            Ok((_, end)) => end,
        },
    }
}

/// `n` values in a row, each read by `item`.
#[verifier::opaque]
pub open spec fn parse_many<T>(
    item: spec_fn(Seq<u8>, nat) -> Reading<T>,
    buf: Seq<u8>,
    pos: nat,
    n: nat,
) -> Reading<Seq<T>>
    decreases n,
{
    if n == 0 {
        Ok((Seq::empty(), pos))
    } else {
        match parse_many(item, buf, pos, (n - 1) as nat) {
            Err(e) => Err(e),
            Ok((values, start)) => match item(buf, start) {
                Err(e) => Err(e),
                Ok((value, end)) => Ok((values.push(value), end)),
            },
        }
    }
}

/// Converts bytes to text with `String::from_utf8`: it succeeds exactly on
/// valid UTF-8, and the text is what the bytes encode.
#[verifier::external_body]
fn text_from_utf8(bytes: Vec<u8>) -> (r: Option<String>)
    ensures
        r is Some <==> valid_utf8(bytes@),
        r matches Some(text) ==> text@ == decode_utf8(bytes@),
{
    String::from_utf8(bytes).ok()
}

/// The bytes of a 32-bit number, the least significant first.
pub fn u32_to_le(x: u32) -> (r: Vec<u8>)
    ensures
        r@ == le_bytes(x as nat, 4),
{
    let r: Vec<u8> = vec![
        (x % 256) as u8,
        (x / 256 % 256) as u8,
        (x / 65536 % 256) as u8,
        (x / 16777216) as u8,
    ];
    proof {
        reveal_with_fuel(le_bytes, 5);
        assert(r@ =~= le_bytes(x as nat, 4));
    }
    r
}

/// The bytes of a 64-bit number, the least significant first.
pub fn u64_to_le(x: u64) -> (r: Vec<u8>)
    ensures
        r@ == le_bytes(x as nat, 8),
{
    let mut r: Vec<u8> = Vec::new();
    let mut rest: u64 = x;
    let mut n: usize = 0;
    while n < 8
        invariant
            n <= 8,
            r@ + le_bytes(rest as nat, (8 - n) as nat) == le_bytes(x as nat, 8),
        decreases 8 - n,
    {
        let ghost before = r@;
        r.push((rest % 256) as u8);
        assert(r@ + le_bytes((rest / 256) as nat, (8 - n - 1) as nat) =~= before + le_bytes(
            rest as nat,
            (8 - n) as nat,
        ));
        rest = rest / 256;
        n = n + 1;
    }
    assert(r@ + le_bytes(rest as nat, 0) =~= r@);
    r
}

pub proof fn lemma_le_value_bound(bytes: Seq<u8>)
    ensures
        bytes.len() == 1 ==> le_value(bytes) <= u8::MAX,
        bytes.len() == 2 ==> le_value(bytes) <= u16::MAX,
        bytes.len() == 4 ==> le_value(bytes) <= u32::MAX,
        bytes.len() == 8 ==> le_value(bytes) <= u64::MAX,
{
    reveal_with_fuel(le_value, 9);
}

/// The number whose bytes are `bytes`, the least significant first.
pub fn le_to_u64(bytes: &[u8]) -> (r: u64)
    requires
        bytes@.len() <= 8,
    ensures
        r == le_value(bytes@),
{
    let mut i: usize = bytes.len();
    let mut r: u64 = 0;
    assert(bytes@.skip(i as int) =~= Seq::empty());
    proof {
        reveal_with_fuel(le_value, 9);
    }
    while i > 0
        invariant
            i <= bytes@.len() <= 8,
            r == le_value(bytes@.skip(i as int)),
            i == 8 ==> r == 0,
            i == 7 ==> r <= 0xff,
            i == 6 ==> r <= 0xffff,
            i == 5 ==> r <= 0xff_ffff,
            i == 4 ==> r <= 0xffff_ffff,
            i == 3 ==> r <= 0xff_ffff_ffff,
            i == 2 ==> r <= 0xffff_ffff_ffff,
            i == 1 ==> r <= 0xff_ffff_ffff_ffff,
        decreases i,
    {
        let ghost s = bytes@.skip((i - 1) as int);
        assert(s.skip(1) =~= bytes@.skip(i as int));
        i = i - 1;
        r = bytes[i] as u64 + 256 * r;
    }
    assert(bytes@.skip(0) =~= bytes@);
    r
}

/// What lies above the low `n` bytes does not matter to them.
proof fn lemma_le_bytes_low(x: nat, k: nat, n: nat)
    ensures
        le_bytes(x + k * pow(256, n) as nat, n) == le_bytes(x, n),
    decreases n,
{
    lemma_pow_positive(256, n);
    if n > 0 {
        let m = (n - 1) as nat;
        lemma_pow_positive(256, m);
        let q = pow(256, m) as nat;
        reveal(pow);
        let y = x + k * pow(256, n) as nat;
        assert(k * pow(256, n) == 256 * (k * q)) by (nonlinear_arith)
            requires
                pow(256, n) == 256 * q,
        ;
        assert(y % 256 == x % 256 && y / 256 == x / 256 + k * q);
        lemma_le_bytes_low(x / 256, k, m);
    }
}

/// The low four bytes of a count or length.
pub fn len_to_le(x: usize) -> (r: Vec<u8>)
    ensures
        r@ == le_bytes(x as nat, 4),
{
    let low: u64 = x as u64 % 0x1_0000_0000;
    proof {
        let k = x as nat / 0x1_0000_0000;
        assert(pow(256, 4) == 0x1_0000_0000) by {
            reveal_with_fuel(pow, 5);
        }
        lemma_le_bytes_low(low as nat, k, 4);
    }
    u32_to_le(low as u32)
}

/// Append a length-prefixed UTF-8 string to `buf`.
pub fn put_str(buf: &mut Vec<u8>, value: &str)
    ensures
        final(buf)@ == old(buf)@ + string_bytes(value@),
{
    let bytes: &[u8] = value.as_bytes();
    let prefix: Vec<u8> = len_to_le(bytes.len());
    buf.extend_from_slice(prefix.as_slice());
    buf.extend_from_slice(bytes);
    proof {
        assert(final(buf)@ =~= old(buf)@ + string_bytes(value@));
    }
}

/// A bounds-checked cursor over bytes.
pub struct Reader<'a> {
    pub buf: &'a [u8],
    pub pos: usize,
}

impl<'a> Reader<'a> {
    pub fn new(buf: &'a [u8]) -> (r: Self)
        ensures
            r.buf@ == buf@,
            r.pos == 0,
    {
        Reader { buf, pos: 0 }
    }

    /// The next `n` bytes.
    pub fn take(&mut self, n: usize) -> (r: Result<&'a [u8], VectorDbError>)
        ensures
            final(self).buf@ == old(self).buf@,
            match parse_take(old(self).buf@, old(self).pos as nat, n as nat) {
                Err(e) => r == Err::<&'a [u8], VectorDbError>(e) && *final(self) == *old(self),
                Ok((bytes, end)) => {
                    &&& r matches Ok(slice) && slice@ == bytes
                    &&& final(self).pos == end
                },
            },
    {
        if n > usize::MAX - self.pos {
            return Err(VectorDbError::Corrupt("length overflow"));
        }
        let end: usize = self.pos + n;
        if end > self.buf.len() {
            return Err(VectorDbError::Corrupt("unexpected end of file"));
        }
        let slice = vstd::slice::slice_subrange(self.buf, self.pos, end);
        self.pos = end;
        Ok(slice)
    }

    pub fn u8(&mut self) -> (r: Result<u8, VectorDbError>)
        ensures
            final(self).buf@ == old(self).buf@,
            match parse_u8(old(self).buf@, old(self).pos as nat) {
                Err(e) => r == Err::<u8, VectorDbError>(e) && final(self).pos == old(self).pos,
                Ok((value, end)) => r == Ok::<u8, VectorDbError>(value) && final(self).pos == end,
            },
    {
        let bytes = self.take(1)?;
        proof {
            reveal_with_fuel(le_value, 2);
        }
        Ok(bytes[0])
    }

    pub fn u32(&mut self) -> (r: Result<u32, VectorDbError>)
        ensures
            final(self).buf@ == old(self).buf@,
            match parse_u32(old(self).buf@, old(self).pos as nat) {
                Err(e) => r == Err::<u32, VectorDbError>(e) && final(self).pos == old(self).pos,
                Ok((value, end)) => r == Ok::<u32, VectorDbError>(value) && final(self).pos == end,
            },
    {
        let bytes = self.take(4)?;
        proof {
            lemma_le_value_bound(bytes@);
        }
        let value: u64 = le_to_u64(bytes);
        Ok(value as u32)
    }

    pub fn u64(&mut self) -> (r: Result<u64, VectorDbError>)
        ensures
            final(self).buf@ == old(self).buf@,
            match parse_u64(old(self).buf@, old(self).pos as nat) {
                Err(e) => r == Err::<u64, VectorDbError>(e) && final(self).pos == old(self).pos,
                Ok((value, end)) => r == Ok::<u64, VectorDbError>(value) && final(self).pos == end,
            },
    {
        let bytes = self.take(8)?;
        Ok(le_to_u64(bytes))
    }

    /// A single-precision number, as its bit pattern.
    pub fn float32(&mut self) -> (r: Result<F32, VectorDbError>)
        ensures
            final(self).buf@ == old(self).buf@,
            match parse_float(old(self).buf@, old(self).pos as nat) {
                Err(e) => r == Err::<F32, VectorDbError>(e) && final(self).pos == old(self).pos,
                Ok((value, end)) => r == Ok::<F32, VectorDbError>(value) && final(self).pos == end,
            },
    {
        let bits: u32 = self.u32()?;
        Ok(F32 { bits })
    }

    /// A length-prefixed UTF-8 string.
    pub fn string(&mut self) -> (r: Result<String, VectorDbError>)
        ensures
            final(self).buf@ == old(self).buf@,
            match parse_string(old(self).buf@, old(self).pos as nat) {
                Err(e) => r == Err::<String, VectorDbError>(e),
                Ok((text, _)) => r matches Ok(value) && value@ == text,
            },
            final(self).pos == string_stop(old(self).buf@, old(self).pos as nat),
    {
        let len: u32 = self.u32()?;
        let bytes = self.take(len as usize)?;
        let mut owned: Vec<u8> = Vec::new();
        owned.extend_from_slice(bytes);
        assert(owned@ =~= bytes@);
        match text_from_utf8(owned) {
            Some(text) => Ok(text),
            None => Err(VectorDbError::Corrupt("invalid utf-8 text")),
        }
    }
}

/// A number that fits in `n` bytes is read back from the `n` bytes written.
pub proof fn lemma_le_round_trip(x: nat, n: nat)
    requires
        x < pow(256, n),
    ensures
        le_bytes(x, n).len() == n,
        le_value(le_bytes(x, n)) == x,
    decreases n,
{
    reveal(pow);
    if n > 0 {
        let m = (n - 1) as nat;
        let q = pow(256, m);
        assert(x / 256 < q) by {
            assert(pow(256, n) == 256 * q);
        }
        lemma_le_round_trip(x / 256, m);
        assert(le_bytes(x, n).skip(1) =~= le_bytes(x / 256, m));
    }
}

/// The bytes `bytes` stand in `buf` at `pos`.
pub open spec fn stands_at(buf: Seq<u8>, pos: nat, bytes: Seq<u8>) -> bool {
    &&& pos + bytes.len() <= buf.len()
    &&& buf.subrange(pos as int, (pos + bytes.len()) as int) == bytes
}

pub proof fn lemma_stands_at_parts(buf: Seq<u8>, pos: nat, a: Seq<u8>, b: Seq<u8>)
    requires
        stands_at(buf, pos, a + b),
    ensures
        stands_at(buf, pos, a),
        stands_at(buf, pos + a.len(), b),
{
    let whole = buf.subrange(pos as int, (pos + a.len() + b.len()) as int);
    assert(buf.subrange(pos as int, (pos + a.len()) as int) =~= whole.take(a.len() as int));
    assert((a + b).take(a.len() as int) =~= a);
    assert(buf.subrange((pos + a.len()) as int, (pos + a.len() + b.len()) as int) =~= whole.skip(
        a.len() as int,
    ));
    assert((a + b).skip(a.len() as int) =~= b);
}

/// What is written is read back: one byte, and numbers of four and eight bytes.
pub proof fn lemma_parse_numbers(buf: Seq<u8>, pos: nat, x: nat)
    requires
        buf.len() <= usize::MAX,
    ensures
        x <= u8::MAX && stands_at(buf, pos, seq![x as u8]) ==> parse_u8(buf, pos) == Ok::<
            (u8, nat),
            VectorDbError,
        >((x as u8, pos + 1)),
        x <= u32::MAX && stands_at(buf, pos, le_bytes(x, 4)) ==> parse_u32(buf, pos) == Ok::<
            (u32, nat),
            VectorDbError,
        >((x as u32, pos + 4)),
        x <= u64::MAX && stands_at(buf, pos, le_bytes(x, 8)) ==> parse_u64(buf, pos) == Ok::<
            (u64, nat),
            VectorDbError,
        >((x as u64, pos + 8)),
{
    reveal_with_fuel(pow, 9);
    assert(pow(256, 4) == 0x1_0000_0000);
    assert(pow(256, 8) == 0x1_0000_0000_0000_0000);
    if x <= u32::MAX {
        lemma_le_round_trip(x, 4);
    }
    if x <= u64::MAX {
        lemma_le_round_trip(x, 8);
    }
    if x <= u8::MAX {
        reveal_with_fuel(le_value, 2);
        assert(le_value(seq![x as u8]) == x);
    }
}

/// What is written is read back: a string.
pub proof fn lemma_parse_string(buf: Seq<u8>, pos: nat, text: Seq<char>)
    requires
        buf.len() <= usize::MAX,
        encode_utf8(text).len() <= u32::MAX,
        stands_at(buf, pos, string_bytes(text)),
    ensures
        parse_string(buf, pos) == Ok::<(Seq<char>, nat), VectorDbError>(
            (text, pos + string_bytes(text).len()),
        ),
{
    let bytes = encode_utf8(text);
    lemma_le_bytes_len(bytes.len(), 4);
    lemma_stands_at_parts(buf, pos, le_bytes(bytes.len(), 4), bytes);
    lemma_parse_numbers(buf, pos, bytes.len());
    encode_utf8_valid_utf8(text);
    encode_utf8_decode_utf8(text);
}

pub proof fn lemma_le_bytes_len(x: nat, n: nat)
    ensures
        le_bytes(x, n).len() == n,
    decreases n,
{
    if n > 0 {
        lemma_le_bytes_len(x / 256, (n - 1) as nat);
    }
}

/// A failure among the first values is the failure of the whole row.
pub proof fn lemma_many_fails<T>(
    item: spec_fn(Seq<u8>, nat) -> Reading<T>,
    buf: Seq<u8>,
    pos: nat,
    m: nat,
    n: nat,
)
    requires
        m <= n,
        parse_many(item, buf, pos, m) is Err,
    ensures
        parse_many(item, buf, pos, n) == parse_many(item, buf, pos, m),
    decreases n,
{
    reveal(parse_many);
    if m < n {
        lemma_many_fails(item, buf, pos, m, (n - 1) as nat);
    }
}

/// The bytes of the items of a row, one after the other.
pub open spec fn joined<T>(items: Seq<T>, bytes: spec_fn(T) -> Seq<u8>) -> Seq<u8>
    decreases items.len(),
{
    if items.len() == 0 {
        Seq::empty()
    } else {
        joined(items.drop_last(), bytes) + bytes(items.last())
    }
}

/// A row is read back as it was written, if each of its items is.
pub proof fn lemma_parse_joined<T, U>(
    items: Seq<T>,
    bytes: spec_fn(T) -> Seq<u8>,
    item: spec_fn(Seq<u8>, nat) -> Reading<U>,
    back: Seq<U>,
    buf: Seq<u8>,
    pos: nat,
)
    requires
        back.len() == items.len(),
        forall|i: int, p: nat|
            0 <= i < items.len() && stands_at(buf, p, bytes(items[i])) ==> #[trigger] item(buf, p)
                == Ok::<(U, nat), VectorDbError>((back[i], p + bytes(#[trigger] items[i]).len())),
        stands_at(buf, pos, joined(items, bytes)),
    ensures
        parse_many(item, buf, pos, items.len()) == Ok::<(Seq<U>, nat), VectorDbError>(
            (back, pos + joined(items, bytes).len()),
        ),
    decreases items.len(),
{
    reveal(parse_many);
    if items.len() == 0 {
        assert(back =~= Seq::empty());
    } else {
        let front = items.drop_last();
        let last = bytes(items.last());
        lemma_stands_at_parts(buf, pos, joined(front, bytes), last);
        assert forall|i: int, p: nat|
            0 <= i < front.len() && stands_at(buf, p, bytes(front[i])) implies #[trigger] item(
            buf,
            p,
        ) == Ok::<(U, nat), VectorDbError>(
            (back.drop_last()[i], p + bytes(#[trigger] front[i]).len()),
        ) by {
            assert(front[i] == items[i]);
        }
        lemma_parse_joined(front, bytes, item, back.drop_last(), buf, pos);
        let p = pos + joined(front, bytes).len();
        assert(items[items.len() - 1] == items.last());
        assert(stands_at(buf, p, bytes(items[items.len() - 1])));
        assert(back.drop_last().push(back.last()) =~= back);
    }
}

/// The length of a row of items of one size.
pub proof fn lemma_joined_len<T>(items: Seq<T>, bytes: spec_fn(T) -> Seq<u8>, size: nat)
    requires
        forall|i: int| 0 <= i < items.len() ==> bytes(#[trigger] items[i]).len() == size,
    ensures
        joined(items, bytes).len() == items.len() * size,
    decreases items.len(),
{
    if items.len() > 0 {
        let front = items.drop_last();
        assert forall|i: int| 0 <= i < front.len() implies bytes(#[trigger] front[i]).len()
            == size by {
            assert(front[i] == items[i]);
        }
        lemma_joined_len(front, bytes, size);
        assert(items[items.len() - 1] == items.last());
        assert((items.len() - 1) * size + size == items.len() * size) by (nonlinear_arith)
            requires
                items.len() >= 1,
        ;
    } else {
        assert(0 * size == 0);
    }
}

/// Where an item of a row of items of one size stands.
pub proof fn lemma_joined_at<T>(
    items: Seq<T>,
    bytes: spec_fn(T) -> Seq<u8>,
    size: nat,
    buf: Seq<u8>,
    pos: nat,
    i: int,
)
    requires
        forall|k: int| 0 <= k < items.len() ==> bytes(#[trigger] items[k]).len() == size,
        stands_at(buf, pos, joined(items, bytes)),
        0 <= i < items.len(),
    ensures
        stands_at(buf, (pos + i * size) as nat, bytes(items[i])),
    decreases items.len(),
{
    let front = items.drop_last();
    assert forall|k: int| 0 <= k < front.len() implies bytes(#[trigger] front[k]).len() == size by {
        assert(front[k] == items[k]);
    }
    lemma_stands_at_parts(buf, pos, joined(front, bytes), bytes(items.last()));
    if i < front.len() {
        lemma_joined_at(front, bytes, size, buf, pos, i);
        assert(front[i] == items[i]);
    } else {
        lemma_joined_len(front, bytes, size);
    }
}

/// What stands in the rest of a buffer stands in the buffer, further on.
pub proof fn lemma_stands_at_shift(buf: Seq<u8>, k: nat, pos: nat, bytes: Seq<u8>)
    requires
        k <= buf.len(),
        pos + k <= buf.len(),
    ensures
        stands_at(buf.skip(k as int), pos, bytes) <==> stands_at(buf, pos + k, bytes),
{
    let n = bytes.len();
    if pos + k + n <= buf.len() {
        assert(buf.skip(k as int).subrange(pos as int, (pos + n) as int) =~= buf.subrange(
            (pos + k) as int,
            (pos + k + n) as int,
        ));
    }
}

} // verus!
