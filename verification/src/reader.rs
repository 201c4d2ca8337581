use crate::error::{DecodeError, Result};
use vstd::prelude::*;

verus! {

/// The outcome of a read at the spec level: what was read (or why it failed),
/// and the cursor position afterwards.
pub type Step<T> = (core::result::Result<T, DecodeError>, int);

/// Maps the success value of a `Result` to its view.
pub open spec fn ok_view<T: View>(r: core::result::Result<T, DecodeError>) -> core::result::Result<
    T::V,
    DecodeError,
> {
    match r {
        Ok(v) => Ok(v@),
        Err(e) => Err(e),
    }
}

/// The error a read of `needed` bytes at `p` reports when fewer are left.
pub open spec fn truncated_at(d: Seq<u8>, p: int, needed: int) -> DecodeError {
    DecodeError::Truncated { at: p as usize, needed: needed as usize, available: (d.len() - p) as usize }
}

/// One byte at `p`.
pub open spec fn read_u8_spec(d: Seq<u8>, p: int) -> Step<u8> {
    if p < d.len() {
        (Ok(d[p]), p + 1)
    } else {
        (Err(truncated_at(d, p, 1)), p)
    }
}

/// `n` bytes at `p`, all or nothing.
pub open spec fn read_bytes_spec(d: Seq<u8>, p: int, n: int) -> Step<Seq<u8>> {
    if n > d.len() - p {
        (Err(truncated_at(d, p, n)), p)
    } else {
        (Ok(d.subrange(p, p + n)), p + n)
    }
}

/// Little-endian value of a byte sequence.
pub open spec fn le_value(b: Seq<u8>) -> nat
    decreases b.len(),
{
    if b.len() == 0 {
        0
    } else {
        b[0] as nat + 256 * le_value(b.drop_first())
    }
}

/// A fixed-width little-endian unsigned integer of `n` bytes, as a mathematical value.
pub open spec fn read_le_spec(d: Seq<u8>, p: int, n: int) -> Step<nat> {
    match read_bytes_spec(d, p, n) {
        (Ok(b), q) => (Ok(le_value(b)), q),
        (Err(e), q) => (Err(e), q),
    }
}

pub open spec fn read_u16_spec(d: Seq<u8>, p: int) -> Step<u16> {
    match read_le_spec(d, p, 2) {
        (Ok(v), q) => (Ok(v as u16), q),
        (Err(e), q) => (Err(e), q),
    }
}

pub open spec fn read_i16_spec(d: Seq<u8>, p: int) -> Step<i16> {
    match read_le_spec(d, p, 2) {
        (Ok(v), q) => (Ok(v as i16), q),
        (Err(e), q) => (Err(e), q),
    }
}

pub open spec fn read_u32_spec(d: Seq<u8>, p: int) -> Step<u32> {
    match read_le_spec(d, p, 4) {
        (Ok(v), q) => (Ok(v as u32), q),
        (Err(e), q) => (Err(e), q),
    }
}

pub open spec fn read_i32_spec(d: Seq<u8>, p: int) -> Step<i32> {
    match read_le_spec(d, p, 4) {
        (Ok(v), q) => (Ok(v as i32), q),
        (Err(e), q) => (Err(e), q),
    }
}

pub open spec fn read_u64_spec(d: Seq<u8>, p: int) -> Step<u64> {
    match read_le_spec(d, p, 8) {
        (Ok(v), q) => (Ok(v as u64), q),
        (Err(e), q) => (Err(e), q),
    }
}

/// The low seven bits of byte `b` placed at group `i` of a variable-length integer
/// (bits that fall beyond 32 are dropped).
pub open spec fn var_group(b: u8, i: int) -> u32 {
    (((b & 0x7f) as u32) << ((7 * i) as u32)) as u32
}

/// Continues reading a variable-length integer whose first `i` groups gave `acc`.
pub open spec fn var_u32_from(d: Seq<u8>, p: int, i: nat, acc: u32) -> Step<u32>
    decreases 5 - i,
{
    if i >= 5 {
        (Err(DecodeError::InvalidVarint), p)
    } else {
        match read_u8_spec(d, p) {
            (Err(e), q) => (Err(e), q),
            (Ok(b), q) => {
                let next = acc | var_group(b, i as int);
                if b & 0x80 == 0 {
                    (Ok(next), q)
                } else {
                    var_u32_from(d, q, i + 1, next)
                }
            },
        }
    }
}

/// A base-128 little-endian integer of at most five bytes; a byte with the high bit
/// clear ends it.
pub open spec fn read_var_u32_spec(d: Seq<u8>, p: int) -> Step<u32> {
    var_u32_from(d, p, 0, 0)
}

pub open spec fn read_var_usize_spec(d: Seq<u8>, p: int) -> Step<usize> {
    match read_var_u32_spec(d, p) {
        (Ok(v), q) => (Ok(v as usize), q),
        (Err(e), q) => (Err(e), q),
    }
}

/// Reads `count - i` more items with `item`, starting at `p`, after the items `acc`;
/// the first failure ends the run.
pub open spec fn repeat_spec<T>(
    item: spec_fn(Seq<u8>, int, nat) -> Step<T>,
    d: Seq<u8>,
    p: int,
    i: nat,
    count: nat,
    acc: Seq<T>,
) -> Step<Seq<T>>
    decreases count - i,
{
    if i >= count {
        (Ok(acc), p)
    } else {
        match item(d, p, i) {
            (Ok(x), q) => repeat_spec(item, d, q, i + 1, count, acc.push(x)),
            (Err(e), q) => (Err(e), q),
        }
    }
}

/// Characters of a UTF-8 byte sequence, or `InvalidUtf8`.
pub open spec fn utf8_spec(b: Seq<u8>) -> core::result::Result<Seq<char>, DecodeError> {
    if vstd::utf8::valid_utf8(b) {
        Ok(vstd::utf8::decode_utf8(b))
    } else {
        Err(DecodeError::InvalidUtf8)
    }
}

/// A length-prefixed UTF-8 string.
pub open spec fn read_string_spec(d: Seq<u8>, p: int) -> Step<Seq<char>> {
    match read_var_usize_spec(d, p) {
        (Err(e), q) => (Err(e), q),
        (Ok(n), q) => match read_bytes_spec(d, q, n as int) {
            (Err(e), r) => (Err(e), r),
            (Ok(b), r) => (utf8_spec(b), r),
        },
    }
}

/// The characters of `bytes` when they are valid UTF-8, by std's `String::from_utf8`.
/// Trusted: it returns a string exactly when `bytes` is well-formed UTF-8 (as vstd's
/// `valid_utf8` defines it), and the string's characters are then the decoded bytes.
#[verifier::external_body]
pub(crate) fn utf8_to_string(bytes: &[u8]) -> (r: Option<String>)
    ensures
        r is Some <==> vstd::utf8::valid_utf8(bytes@),
        r matches Some(s) ==> s@ == vstd::utf8::decode_utf8(bytes@),
{
    String::from_utf8(bytes.to_vec()).ok()
}

proof fn lemma_le_value_2(b: Seq<u8>)
    requires
        b.len() == 2,
    ensures
        le_value(b) == b[0] + 256 * b[1],
{
    reveal_with_fuel(le_value, 3);
}

pub(crate) proof fn lemma_le_value_4(b: Seq<u8>)
    requires
        b.len() == 4,
    ensures
        le_value(b) == b[0] + 256 * b[1] + 65536 * b[2] + 16777216 * b[3],
{
    reveal_with_fuel(le_value, 5);
}

proof fn lemma_le_value_8(b: Seq<u8>)
    requires
        b.len() == 8,
    ensures
        le_value(b) == le_value(b.subrange(0, 4)) + 0x1_0000_0000 * le_value(b.subrange(4, 8)),
        le_value(b.subrange(0, 4)) == b[0] + 256 * b[1] + 65536 * b[2] + 16777216 * b[3],
        le_value(b.subrange(4, 8)) == b[4] + 256 * b[5] + 65536 * b[6] + 16777216 * b[7],
{
    reveal_with_fuel(le_value, 9);
    lemma_le_value_4(b.subrange(0, 4));
    lemma_le_value_4(b.subrange(4, 8));
}

pub(crate) fn le_u32(b: &[u8; 4]) -> (r: u32)
    ensures
        r == b@[0] + 256 * b@[1] + 65536 * b@[2] + 16777216 * b@[3],
{
    (b[0] as u32) + (b[1] as u32) * 256 + (b[2] as u32) * 65536 + (b[3] as u32) * 16777216
}

/// An owned copy of `b`.
pub fn copy_bytes(b: &[u8]) -> (r: Vec<u8>)
    ensures
        r@ == b@,
{
    let mut v: Vec<u8> = Vec::new();
    v.extend_from_slice(b);
    assert(v@ =~= b@);
    v
}

/// A forward-only cursor over a byte slice.
#[derive(Clone, Copy)]
pub struct Reader<'a> {
    input: &'a [u8],
    pos: usize,
}

/// What a reader holds: the whole input and the cursor.
pub struct ReaderView {
    pub data: Seq<u8>,
    pub pos: int,
}

impl<'a> View for Reader<'a> {
    type V = ReaderView;

    closed spec fn view(&self) -> ReaderView {
        ReaderView { data: self.input@, pos: self.pos as int }
    }
}

impl<'a> Reader<'a> {
    #[verifier::type_invariant]
    closed spec fn inv(self) -> bool {
        self.pos <= self.input@.len()
    }

    /// Everything a reader reads comes from its input, and the cursor stays inside it.
    pub open spec fn well_placed(&self) -> bool {
        0 <= self@.pos <= self@.data.len()
    }

    pub fn new(input: &'a [u8]) -> (r: Self)
        ensures
            r@.data == input@,
            r@.pos == 0,
    {
        Self { input, pos: 0 }
    }

    pub fn position(&self) -> (r: usize)
        ensures
            r == self@.pos,
            self.well_placed(),
    {
        proof {
            use_type_invariant(self);
        }
        self.pos
    }

    pub fn remaining(&self) -> (r: usize)
        ensures
            r == self@.data.len() - self@.pos,
            self.well_placed(),
    {
        proof {
            use_type_invariant(self);
        }
        self.input.len() - self.pos
    }

    pub fn read_u8(&mut self) -> (r: Result<u8>)
        ensures
            final(self)@.data == old(self)@.data,
            (r, final(self)@.pos) == read_u8_spec(old(self)@.data, old(self)@.pos),
    {
        proof {
            use_type_invariant(&*self);
        }
        if self.pos < self.input.len() {
            let b = self.input[self.pos];
            self.pos = self.pos + 1;
            Ok(b)
        } else {
            Err(DecodeError::Truncated { at: self.pos, needed: 1, available: self.input.len() - self.pos })
        }
    }

    pub fn read_bytes(&mut self, len: usize) -> (r: Result<&'a [u8]>)
        ensures
            final(self)@.data == old(self)@.data,
            (ok_view(r), final(self)@.pos) == read_bytes_spec(
                old(self)@.data,
                old(self)@.pos,
                len as int,
            ),
    {
        proof {
            use_type_invariant(&*self);
        }
        if len > self.input.len() - self.pos {
            return Err(
                DecodeError::Truncated { at: self.pos, needed: len, available: self.input.len() - self.pos },
            );
        }
        let start = self.pos;
        self.pos = self.pos + len;
        Ok(&self.input[start..start + len])
    }

    pub fn read_array<const N: usize>(&mut self) -> (r: Result<[u8; N]>)
        ensures
            final(self)@.data == old(self)@.data,
            (ok_view(r), final(self)@.pos) == read_bytes_spec(
                old(self)@.data,
                old(self)@.pos,
                N as int,
            ),
    {
        let bytes = self.read_bytes(N)?;
        let mut out = [0u8;N];
        let mut i: usize = 0;
        while i < N
            invariant
                bytes@.len() == N,
                out@.len() == N,
                i <= N,
                forall|j: int| 0 <= j < i ==> out@[j] == bytes@[j],
            decreases N - i,
        {
            out[i] = bytes[i];
            i = i + 1;
        }
        assert(out@ =~= bytes@);
        Ok(out)
    }

    pub fn read_u16(&mut self) -> (r: Result<u16>)
        ensures
            final(self)@.data == old(self)@.data,
            (r, final(self)@.pos) == read_u16_spec(old(self)@.data, old(self)@.pos),
    {
        let ghost d = self@.data;
        let ghost p = self@.pos;
        let b = self.read_array::<2>()?;
        proof {
            lemma_le_value_2(d.subrange(p, p + 2));
        }
        Ok((b[0] as u16) + (b[1] as u16) * 256)
    }

    pub fn read_i16(&mut self) -> (r: Result<i16>)
        ensures
            final(self)@.data == old(self)@.data,
            (r, final(self)@.pos) == read_i16_spec(old(self)@.data, old(self)@.pos),
    {
        let ghost d = self@.data;
        let ghost p = self@.pos;
        let b = self.read_array::<2>()?;
        proof {
            lemma_le_value_2(d.subrange(p, p + 2));
        }
        let u: u16 = (b[0] as u16) + (b[1] as u16) * 256;
        Ok(u as i16)
    }

    pub fn read_u32(&mut self) -> (r: Result<u32>)
        ensures
            final(self)@.data == old(self)@.data,
            (r, final(self)@.pos) == read_u32_spec(old(self)@.data, old(self)@.pos),
    {
        let ghost d = self@.data;
        let ghost p = self@.pos;
        let b = self.read_array::<4>()?;
        proof {
            lemma_le_value_4(d.subrange(p, p + 4));
        }
        Ok(le_u32(&b))
    }

    pub fn read_i32(&mut self) -> (r: Result<i32>)
        ensures
            final(self)@.data == old(self)@.data,
            (r, final(self)@.pos) == read_i32_spec(old(self)@.data, old(self)@.pos),
    {
        let ghost d = self@.data;
        let ghost p = self@.pos;
        let b = self.read_array::<4>()?;
        proof {
            lemma_le_value_4(d.subrange(p, p + 4));
        }
        let u = le_u32(&b);
        Ok(u as i32)
    }

    pub fn read_u64(&mut self) -> (r: Result<u64>)
        ensures
            final(self)@.data == old(self)@.data,
            (r, final(self)@.pos) == read_u64_spec(old(self)@.data, old(self)@.pos),
    {
        let ghost d = self@.data;
        let ghost p = self@.pos;
        let b = self.read_array::<8>()?;
        proof {
            lemma_le_value_8(d.subrange(p, p + 8));
        }
        let lo = le_u32(&[b[0], b[1], b[2], b[3]]) as u64;
        let hi = le_u32(&[b[4], b[5], b[6], b[7]]) as u64;
        Ok(lo + hi * 0x1_0000_0000)
    }

    pub fn read_var_u32(&mut self) -> (r: Result<u32>)
        ensures
            final(self)@.data == old(self)@.data,
            (r, final(self)@.pos) == read_var_u32_spec(old(self)@.data, old(self)@.pos),
    {
        let ghost d = self@.data;
        let ghost p0 = self@.pos;
        let mut shift: u32 = 0;
        let mut out: u32 = 0;
        let mut i: usize = 0;
        while i < 5
            invariant
                i <= 5,
                shift == 7 * i,
                self@.data == d,
                d == old(self)@.data,
                p0 == old(self)@.pos,
                var_u32_from(d, self@.pos, i as nat, out) == read_var_u32_spec(d, p0),
            decreases 5 - i,
        {
            let b = self.read_u8()?;
            let group = ((b & 0x7f) as u32) << shift;
            assert(group == var_group(b, i as int));
            out = out | group;
            if b & 0x80 == 0 {
                return Ok(out);
            }
            shift = shift + 7;
            i = i + 1;
        }
        Err(DecodeError::InvalidVarint)
    }

    pub fn read_var_usize(&mut self) -> (r: Result<usize>)
        ensures
            final(self)@.data == old(self)@.data,
            (r, final(self)@.pos) == read_var_usize_spec(old(self)@.data, old(self)@.pos),
    {
        let v = self.read_var_u32()?;
        Ok(v as usize)
    }

    pub fn read_string(&mut self) -> (r: Result<String>)
        ensures
            final(self)@.data == old(self)@.data,
            (ok_view(r), final(self)@.pos) == read_string_spec(old(self)@.data, old(self)@.pos),
    {
        let len = self.read_var_usize()?;
        let bytes = self.read_bytes(len)?;
        match utf8_to_string(bytes) {
            Some(s) => Ok(s),
            None => Err(DecodeError::InvalidUtf8),
        }
    }

    pub fn read_remaining(&mut self) -> (r: &'a [u8])
        ensures
            final(self)@.data == old(self)@.data,
            r@ == old(self)@.data.subrange(old(self)@.pos, old(self)@.data.len() as int),
            final(self)@.pos == old(self)@.data.len(),
    {
        proof {
            use_type_invariant(&*self);
        }
        let rest = &self.input[self.pos..self.input.len()];
        self.pos = self.input.len();
        rest
    }
}

/// Bit `k` of `d`, counting from the least significant bit of the first byte.
pub open spec fn bit_at(d: Seq<u8>, k: int) -> u8 {
    (d[k / 8] >> ((k % 8) as u8)) & 1
}

/// The value of the `w` bits of `d` starting at bit `start`, the first of them
/// being the least significant.
pub open spec fn bits_value(d: Seq<u8>, start: int, w: nat) -> nat
    decreases w,
{
    if w == 0 {
        0
    } else {
        bits_value(d, start, (w - 1) as nat) + (bit_at(d, start + w - 1) as nat)
            * vstd::arithmetic::power2::pow2((w - 1) as nat)
    }
}

/// A cursor over the bits of a byte slice. A width of 0 asks for the last width used.
pub struct BitReader<'a> {
    data: &'a [u8],
    bit: usize,
    sticky_width: u8,
    marker: usize,
}

pub struct BitReaderView {
    pub data: Seq<u8>,
    pub bit: int,
    pub sticky_width: u8,
    pub marker: int,
}

impl<'a> View for BitReader<'a> {
    type V = BitReaderView;

    closed spec fn view(&self) -> BitReaderView {
        BitReaderView {
            data: self.data@,
            bit: self.bit as int,
            sticky_width: self.sticky_width,
            marker: self.marker as int,
        }
    }
}

/// How many bits are left after bit `bit` of `d` (the bit count of `d` saturates at `usize::MAX`).
pub open spec fn bits_remaining_spec(d: Seq<u8>, bit: int) -> int {
    let total = if d.len() * 8 > usize::MAX { usize::MAX as int } else { (d.len() * 8) as int };
    if bit > total { 0 } else { total - bit }
}

/// The result of reading `width` bits from state `st`, and the state afterwards.
pub open spec fn read_bits_spec(st: BitReaderView, width: u8) -> (core::result::Result<u64, DecodeError>, BitReaderView) {
    let w = if width == 0 { st.sticky_width } else { width };
    let st1 = BitReaderView { sticky_width: w, ..st };
    if w > 56 {
        (Err(DecodeError::InvalidField("bit width")), st1)
    } else if w > bits_remaining_spec(st.data, st.bit) {
        (
            Err(
                DecodeError::Truncated {
                    at: st.bit as usize,
                    needed: w as usize,
                    available: bits_remaining_spec(st.data, st.bit) as usize,
                },
            ),
            st1,
        )
    } else {
        (Ok(bits_value(st.data, st.bit, w as nat) as u64), BitReaderView { bit: st.bit + w, ..st1 })
    }
}

impl<'a> BitReader<'a> {
    pub fn new(data: &'a [u8]) -> (r: Self)
        ensures
            r@ == (BitReaderView { data: data@, bit: 0, sticky_width: 1, marker: 0 }),
    {
        Self { data, bit: 0, sticky_width: 1, marker: 0 }
    }

    pub fn bits_remaining(&self) -> (r: usize)
        ensures
            r == bits_remaining_spec(self@.data, self@.bit),
    {
        let total = match self.data.len().checked_mul(8) {
            Some(t) => t,
            None => usize::MAX,
        };
        total.saturating_sub(self.bit)
    }

    pub fn set_marker(&mut self)
        ensures
            final(self)@ == (BitReaderView { marker: old(self)@.bit, ..old(self)@ }),
    {
        self.marker = self.bit;
    }

    pub fn rewind_to_marker(&mut self)
        ensures
            final(self)@ == (BitReaderView { bit: old(self)@.marker, ..old(self)@ }),
    {
        self.bit = self.marker;
    }

    /// Reads `width` bits (or the last non-zero width asked for, when `width` is 0).
    /// Widths above 56 are refused; a read past the end of the data fails and leaves
    /// the cursor where it was.
    pub fn read_bits(&mut self, width: u8) -> (r: Result<u64>)
        ensures
            (r, final(self)@) == read_bits_spec(old(self)@, width),
    {
        let width = if width == 0 {
            self.sticky_width
        } else {
            self.sticky_width = width;
            width
        };
        if width > 56 {
            return Err(DecodeError::InvalidField("bit width"));
        }
        let available = self.bits_remaining();
        if width as usize > available {
            return Err(DecodeError::Truncated { at: self.bit, needed: width as usize, available });
        }
        let mut value: u64 = 0;
        let mut place: u64 = 1;
        let mut i: usize = 0;
        proof {
            vstd::arithmetic::power2::lemma2_to64();
            assert(width == 0 || self.bit + width <= self.data@.len() * 8);
        }
        while i < width as usize
            invariant
                width <= 56,
                i <= width,
                width == 0 || self.bit + width <= self.data@.len() * 8,
                self.bit + width <= usize::MAX,
                place == vstd::arithmetic::power2::pow2(i as nat),
                place <= 0x100_0000_0000_0000,
                value == bits_value(self.data@, self.bit as int, i as nat),
                value < place,
            decreases width - i,
        {
            let k = self.bit + i;
            let byte = self.data[k / 8];
            let b = (byte >> ((k % 8) as u8)) & 1;
            proof {
                vstd::arithmetic::power2::lemma_pow2_unfold((i + 1) as nat);
                vstd::arithmetic::power2::lemma_pow2_strictly_increases(i as nat, 56);
                vstd::arithmetic::power2::lemma2_to64();
                vstd::arithmetic::power2::lemma2_to64_rest();
                assert(k / 8 < self.data@.len()) by (nonlinear_arith)
                    requires k < self.data@.len() * 8, k >= 0;
                assert(b <= 1) by (bit_vector)
                    requires b == (byte >> ((k % 8) as u8)) & 1;
            }
            proof {
                if i < 55 {
                    vstd::arithmetic::power2::lemma_pow2_strictly_increases(i as nat, 55);
                }
                assert(b == bit_at(self.data@, k as int));
                assert(bits_value(self.data@, self.bit as int, (i + 1) as nat) == bits_value(
                    self.data@,
                    self.bit as int,
                    i as nat,
                ) + (b as nat) * place);
            }
            let ghost prev = value;
            if b == 1 {
                value = value + place;
            }
            assert((b as nat) * place == if b == 1 { place as nat } else { 0 }) by (nonlinear_arith)
                requires
                    b <= 1,
            ;
            assert(value == prev + (b as nat) * place);
            assert(place * 2 == vstd::arithmetic::power2::pow2((i + 1) as nat));
            assert(place * 2 <= 0x100_0000_0000_0000);
            place = place * 2;
            i = i + 1;
        }
        self.bit = self.bit + width as usize;
        Ok(value)
    }
}

/// After a marker is set and a read of a given width is made, rewinding to the marker
/// makes the same read give the same result again.
pub proof fn law_rewind_rereads(st: BitReaderView, width: u8)
    requires
        width > 0,
    ensures
        ({
            let marked = BitReaderView { marker: st.bit, ..st };
            let (first, after) = read_bits_spec(marked, width);
            let rewound = BitReaderView { bit: after.marker, ..after };
            read_bits_spec(rewound, width).0 == first
        }),
{
}

/// The running state of the archive checksum after `data`.
pub open spec fn checksum_spec(data: Seq<u8>) -> u32
    decreases data.len(),
{
    if data.len() == 0 {
        0x811c_9dc5
    } else {
        checksum_step(checksum_spec(data.drop_last()), data.last(), data.len() - 1)
    }
}

/// `x` rotated left by `k` bits, for `1 <= k <= 31`.
pub open spec fn rotl32(x: u32, k: u32) -> u32 {
    ((x << k) | (x >> ((32 - k) as u32))) as u32
}

/// Folds the byte `b`, found at index `idx`, into the checksum state `h`.
pub open spec fn checksum_step(h: u32, b: u8, idx: int) -> u32 {
    rotl32((h ^ (b as u32)).wrapping_mul(0x0100_0193), ((idx % 8) + 1) as u32)
}

/// A 32-bit checksum of `data`: an FNV-style multiply with a position-dependent rotation.
pub fn checksum32(data: &[u8]) -> (r: u32)
    ensures
        r == checksum_spec(data@),
{
    let mut h: u32 = 0x811c_9dc5;
    let mut idx: usize = 0;
    while idx < data.len()
        invariant
            idx <= data@.len(),
            h == checksum_spec(data@.subrange(0, idx as int)),
        decreases data@.len() - idx,
    {
        let b = data[idx];
        let k: u32 = (idx % 8) as u32 + 1;
        let m = (h ^ (b as u32)).wrapping_mul(0x0100_0193);
        h = (m << k) | (m >> (32 - k));
        proof {
            let s = data@.subrange(0, idx + 1);
            assert(s.drop_last() =~= data@.subrange(0, idx as int));
        }
        idx = idx + 1;
    }
    assert(data@.subrange(0, data@.len() as int) =~= data@);
    h
}

/// The integer whose zig-zag code is `v`: even codes are the non-negative numbers,
/// odd codes the negative ones.
pub open spec fn zigzag_spec(v: u64) -> int {
    if v % 2 == 0 {
        (v / 2) as int
    } else {
        -((v / 2) as int) - 1
    }
}

pub fn zigzag_decode(value: u64) -> (r: i64)
    ensures
        r == zigzag_spec(value),
{
    proof {
        assert(value >> 1 == value / 2) by (bit_vector);
        assert(value & 1 == value % 2) by (bit_vector);
        assert(value >> 1 <= 0x7fff_ffff_ffff_ffff) by (bit_vector);
    }
    let half = (value >> 1) as i64;
    let low = (value & 1) as i64;
    let sign = -low;
    proof {
        assert(half >= 0);
        let h = half;
        assert(h ^ 0i64 == h) by (bit_vector);
        assert(h >= 0 ==> h ^ -1i64 == -h - 1) by (bit_vector);
    }
    half ^ sign
}

} // verus!
