//! The code buffer: bytes that are appended to, and four of which can later be
//! overwritten where a displacement was left open.

use vstd::prelude::*;

verus! {

/// The `width` low-order bytes of `value`, least significant first.
pub open spec fn le_bytes(value: nat, width: nat) -> Seq<u8>
    decreases width,
{
    if width == 0 {
        Seq::empty()
    } else {
        seq![(value % 256) as u8] + le_bytes(value / 256, (width - 1) as nat)
    }
}

/// The number that `bytes` spell, least significant byte first.
pub open spec fn le_value(bytes: Seq<u8>) -> nat
    decreases bytes.len(),
{
    if bytes.len() == 0 {
        0
    } else {
        bytes[0] as nat + 256 * le_value(bytes.drop_first())
    }
}

/// `256` to the power `width`.
pub open spec fn byte_range(width: nat) -> nat
    decreases width,
{
    if width == 0 {
        1
    } else {
        256 * byte_range((width - 1) as nat)
    }
}

/// The 32-bit two's complement pattern of `v`, as a number.
pub open spec fn wrap32(v: int) -> nat {
    (v % 0x1_0000_0000) as nat
}

/// `bytes` with the stretch from `start` to `end` replaced by `patch`.
pub open spec fn spliced(bytes: Seq<u8>, start: int, end: int, patch: Seq<u8>) -> Seq<u8> {
    bytes.subrange(0, start) + patch + bytes.subrange(end, bytes.len() as int)
}

/// An owned, growable sequence of machine-code bytes.
#[derive(Clone, Debug, PartialEq, Eq)]
pub struct MachineCode {
    content: Vec<u8>,
}

impl View for MachineCode {
    type V = Seq<u8>;

    closed spec fn view(&self) -> Seq<u8> {
        self.content@
    }
}

impl MachineCode {
    /// An empty buffer.
    pub fn new() -> (code: Self)
        ensures
            code@ == Seq::<u8>::empty(),
    {
        Self { content: Vec::new() }
    }

    /// Appends one byte.
    pub fn emit_byte(&mut self, b: u8)
        ensures
            final(self)@ == old(self)@.push(b),
    {
        self.content.push(b);
    }

    /// Appends `bs`.
    pub fn emit_bytes(&mut self, bs: &[u8])
        ensures
            final(self)@ == old(self)@ + bs@,
    {
        self.content.extend_from_slice(bs);
    }

    /// Appends `n` as two bytes, low byte first.
    pub fn emit_u16(&mut self, n: u16)
        ensures
            final(self)@ == old(self)@ + le_bytes(n as nat, 2),
    {
        let low: u8 = (n & 0xff) as u8;
        let high: u8 = (n >> 8) as u8;
        proof {
            assert(n & 0xff == n % 256) by (bit_vector);
            assert(n >> 8 == n / 256) by (bit_vector);
            reveal_with_fuel(le_bytes, 3);
            assert(le_bytes(n as nat, 2) =~= seq![low, high]);
        }
        self.emit_bytes(&[low, high]);
        assert(self@ =~= old(self)@ + le_bytes(n as nat, 2));
    }

    /// Appends `n` as four bytes, low byte first.
    pub fn emit_u32(&mut self, n: u32)
        ensures
            final(self)@ == old(self)@ + le_bytes(n as nat, 4),
    {
        let low: u16 = (n & 0xffff) as u16;
        let high: u16 = (n >> 16) as u16;
        proof {
            assert(n & 0xffff == n % 0x1_0000) by (bit_vector);
            assert(n >> 16 == n / 0x1_0000) by (bit_vector);
            lemma_le_bytes_split(n as nat, 2, 2);
            reveal_with_fuel(byte_range, 3);
        }
        self.emit_u16(low);
        self.emit_u16(high);
        assert(self@ =~= old(self)@ + le_bytes(n as nat, 4));
    }

    /// Appends `n` as eight bytes, low byte first.
    pub fn emit_u64(&mut self, n: u64)
        ensures
            final(self)@ == old(self)@ + le_bytes(n as nat, 8),
    {
        let low: u32 = (n & 0xffff_ffff) as u32;
        let high: u32 = (n >> 32) as u32;
        proof {
            assert(n & 0xffff_ffff == n % 0x1_0000_0000) by (bit_vector);
            assert(n >> 32 == n / 0x1_0000_0000) by (bit_vector);
            lemma_le_bytes_split(n as nat, 4, 4);
            reveal_with_fuel(byte_range, 5);
        }
        self.emit_u32(low);
        self.emit_u32(high);
        assert(self@ =~= old(self)@ + le_bytes(n as nat, 8));
    }

    /// Replaces the bytes from `start` to `end` by the four bytes of `n`, low
    /// byte first. With `end == start + 4` this overwrites a field in place.
    pub fn replace_u32(&mut self, start: usize, end: usize, n: u32)
        requires
            start <= end <= old(self)@.len(),
        ensures
            final(self)@ == spliced(old(self)@, start as int, end as int, le_bytes(n as nat, 4)),
    {
        let b0: u8 = (n & 0xff) as u8;
        let b1: u8 = ((n >> 8) & 0xff) as u8;
        let b2: u8 = ((n >> 16) & 0xff) as u8;
        let b3: u8 = ((n >> 24) & 0xff) as u8;
        proof {
            assert(n & 0xff == n % 256) by (bit_vector);
            assert((n >> 8) & 0xff == (n / 256) % 256) by (bit_vector);
            assert((n >> 16) & 0xff == (n / 256 / 256) % 256) by (bit_vector);
            assert((n >> 24) & 0xff == (n / 256 / 256 / 256) % 256) by (bit_vector);
            reveal_with_fuel(le_bytes, 5);
            assert(le_bytes(n as nat, 4) =~= seq![b0, b1, b2, b3]);
        }
        if end - start == 4 {
            self.content.set(start, b0);
            self.content.set(start + 1, b1);
            self.content.set(start + 2, b2);
            self.content.set(start + 3, b3);
        } else {
            let mut tail: Vec<u8> = self.content.split_off(end);
            self.content.truncate(start);
            self.content.push(b0);
            self.content.push(b1);
            self.content.push(b2);
            self.content.push(b3);
            self.content.append(&mut tail);
        }
        assert(self@ =~= spliced(old(self)@, start as int, end as int, le_bytes(n as nat, 4)));
    }

    /// The bytes emitted so far.
    pub fn get(&self) -> (bytes: &Vec<u8>)
        ensures
            bytes@ == self@,
    {
        &self.content
    }

    /// The number of bytes emitted so far.
    pub fn len(&self) -> (n: usize)
        ensures
            n == self@.len(),
    {
        self.content.len()
    }
}

/// The low `a` bytes of a number are the bytes of its remainder, and the
/// `b` bytes above them are the bytes of its quotient, by `256` to the `a`.
pub proof fn lemma_le_bytes_split(value: nat, a: nat, b: nat)
    ensures
        byte_range(a) > 0,
        le_bytes(value, a + b) == le_bytes(value % byte_range(a), a) + le_bytes(
            value / byte_range(a),
            b,
        ),
    decreases a,
{
    if a == 0 {
        assert(le_bytes(value % 1, 0) + le_bytes(value / 1, b) =~= le_bytes(value, b));
    } else {
        let r = byte_range((a - 1) as nat);
        lemma_le_bytes_split(value / 256, (a - 1) as nat, b);
        let low = value % (256 * r);
        vstd::arithmetic::div_mod::lemma_mod_breakdown(value as int, 256, r as int);
        vstd::arithmetic::div_mod::lemma_div_denominator(value as int, 256, r as int);
        assert(low == 256 * ((value / 256) % r) + value % 256);
        assert(low % 256 == value % 256 && low / 256 == (value / 256) % r);
        assert(le_bytes(value, a + b) =~= le_bytes(value % byte_range(a), a) + le_bytes(
            value / byte_range(a),
            b,
        ));
    }
}

/// A number written in `width` bytes takes `width` bytes.
pub proof fn lemma_le_bytes_len(value: nat, width: nat)
    ensures
        le_bytes(value, width).len() == width,
    decreases width,
{
    if width > 0 {
        lemma_le_bytes_len(value / 256, (width - 1) as nat);
    }
}

/// The bytes of a number spell the number again, as far as their width
/// holds it.
pub proof fn lemma_le_roundtrip(value: nat, width: nat)
    ensures
        byte_range(width) > 0,
        le_value(le_bytes(value, width)) == value % byte_range(width),
    decreases width,
{
    if width > 0 {
        let rest = byte_range((width - 1) as nat);
        lemma_le_roundtrip(value / 256, (width - 1) as nat);
        vstd::arithmetic::div_mod::lemma_mod_breakdown(value as int, 256, rest as int);
        assert(le_bytes(value, width).drop_first() =~= le_bytes(value / 256, (width - 1) as nat));
    }
}

/// Replacing a stretch that lies inside the middle one of three parts
/// changes that part only.
pub proof fn lemma_spliced_inside(
    front: Seq<u8>,
    middle: Seq<u8>,
    back: Seq<u8>,
    start: int,
    end: int,
    patch: Seq<u8>,
)
    requires
        front.len() <= start <= end <= front.len() + middle.len(),
    ensures
        spliced(front + middle + back, start, end, patch) == front + spliced(
            middle,
            start - front.len(),
            end - front.len(),
            patch,
        ) + back,
{
    assert(spliced(front + middle + back, start, end, patch) =~= front + spliced(
        middle,
        start - front.len(),
        end - front.len(),
        patch,
    ) + back);
}

} // verus!
