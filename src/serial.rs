use crate::field::{is_canonical, ORDER};
use crate::gate::ArithmeticExtensionGate;
use crate::generator::ArithmeticExtensionGenerator;
use vstd::prelude::*;

verus! {

/// `256^n`.
pub open spec fn pow256(n: nat) -> nat
    decreases n,
{
    if n == 0 {
        1
    } else {
        256 * pow256((n - 1) as nat)
    }
}

/// The `n` bytes of `x` in little-endian order.
pub open spec fn le_bytes(x: nat, n: nat) -> Seq<u8>
    decreases n,
{
    if n == 0 {
        seq![]
    } else {
        seq![(x % 256) as u8] + le_bytes(x / 256, (n - 1) as nat)
    }
}

/// The number whose little-endian bytes are `s`.
pub open spec fn le_value(s: Seq<u8>) -> nat
    decreases s.len(),
{
    if s.len() == 0 {
        0
    } else {
        s[0] as nat + 256 * le_value(s.drop_first())
    }
}

/// The eight bytes that encode a `usize` or a field element.
pub open spec fn word_bytes(x: nat) -> Seq<u8> {
    le_bytes(x, 8)
}

/// The number held by the first eight bytes of `s`.
pub open spec fn word_value(s: Seq<u8>) -> nat {
    le_value(s.subrange(0, 8))
}

/// The number held by the eight bytes of `s` from byte `8 * k` on.
pub open spec fn word_at(s: Seq<u8>, k: int) -> nat {
    le_value(s.subrange(8 * k, 8 * k + 8))
}

pub proof fn lemma_pow256_8()
    ensures
        pow256(8) == 0x1_0000_0000_0000_0000,
{
    reveal_with_fuel(pow256, 9);
}

pub proof fn lemma_le_value_bound(s: Seq<u8>)
    ensures
        le_value(s) < pow256(s.len()),
    decreases s.len(),
{
    if s.len() > 0 {
        lemma_le_value_bound(s.drop_first());
        let v = le_value(s.drop_first());
        let q = pow256((s.len() - 1) as nat);
        assert(s[0] as nat + 256 * v < 256 * q) by (nonlinear_arith)
            requires
                v < q,
                s[0] < 256,
        ;
    }
}

/// Reading the bytes of a number back gives the number.
pub proof fn lemma_le_round_trip(x: nat, n: nat)
    requires
        x < pow256(n),
    ensures
        le_bytes(x, n).len() == n,
        le_value(le_bytes(x, n)) == x,
    decreases n,
{
    if n > 0 {
        let q = pow256((n - 1) as nat);
        assert(x / 256 < q) by (nonlinear_arith)
            requires
                x < 256 * q,
        ;
        lemma_le_round_trip(x / 256, (n - 1) as nat);
        assert(le_bytes(x, n).drop_first() =~= le_bytes(x / 256, (n - 1) as nat));
        assert((x % 256) + 256 * (x / 256) == x) by (nonlinear_arith);
    } else {
        assert(x == 0);
    }
}

/// Failure to decode: the bytes ran out, or do not hold a value of the
/// expected shape.
#[derive(Clone, Copy, Debug, PartialEq, Eq, Structural)]
pub struct IoError;

/// Bytes being read, and how many of them have been read.
#[derive(Clone, Debug)]
pub struct Buffer {
    pub bytes: Vec<u8>,
    pub pos: usize,
}

impl Buffer {
    pub open spec fn wf(self) -> bool {
        self.pos <= self.bytes.len()
    }

    /// The bytes not read yet.
    pub open spec fn unread(self) -> Seq<u8> {
        self.bytes@.subrange(self.pos as int, self.bytes.len() as int)
    }

    pub fn new(bytes: Vec<u8>) -> (r: Self)
        ensures
            r.wf(),
            r.bytes@ == bytes@,
            r.pos == 0,
            r.unread() == bytes@,
    {
        let r = Buffer { bytes, pos: 0 };
        assert(r.unread() =~= bytes@);
        r
    }

    /// How many bytes remain to be read.
    pub fn remaining(&self) -> (r: usize)
        requires
            self.wf(),
        ensures
            r == self.unread().len(),
    {
        self.bytes.len() - self.pos
    }

    fn read_le(&self, at: usize, n: usize) -> (r: u64)
        requires
            n <= 8,
            at + n <= self.bytes.len(),
        ensures
            r == le_value(self.bytes@.subrange(at as int, at + n)),
        decreases n,
    {
        if n == 0 {
            0
        } else {
            let rest = self.read_le(at + 1, n - 1);
            proof {
                let s = self.bytes@.subrange(at as int, at + n);
                assert(s.drop_first() =~= self.bytes@.subrange(at + 1, at + n));
                lemma_le_value_bound(self.bytes@.subrange(at + 1, at + n));
                reveal_with_fuel(pow256, 9);
                assert(pow256((n - 1) as nat) <= pow256(7));
                assert(256 * (rest as int) + 255 <= u64::MAX) by (nonlinear_arith)
                    requires
                        rest < pow256(7),
                        pow256(7) == 0x100_0000_0000_0000,
                ;
            }
            self.bytes[at] as u64 + 256 * rest
        }
    }

    /// Reads eight bytes as a little-endian `u64`.
    pub fn read_u64(&mut self) -> (r: Result<u64, IoError>)
        requires
            old(self).wf(),
        ensures
            final(self).wf(),
            final(self).bytes@ == old(self).bytes@,
            old(self).unread().len() >= 8 ==> word_value(old(self).unread()) <= u64::MAX,
            old(self).unread().len() >= 8 ==> r == Ok::<u64, IoError>(
                word_value(old(self).unread()) as u64,
            ) && final(self).pos == old(self).pos + 8,
            old(self).unread().len() < 8 ==> r == Err::<u64, IoError>(IoError) && *final(self)
                == *old(self),
    {
        if self.bytes.len() - self.pos < 8 {
            return Err(IoError);
        }
        let v = self.read_le(self.pos, 8);
        assert(old(self).unread().subrange(0, 8) =~= self.bytes@.subrange(
            self.pos as int,
            self.pos + 8,
        ));
        proof {
            lemma_le_value_bound(old(self).unread().subrange(0, 8));
            lemma_pow256_8();
        }
        self.pos = self.pos + 8;
        Ok(v)
    }

    /// Reads a `usize` written by `write_usize`.
    pub fn read_usize(&mut self) -> (r: Result<usize, IoError>)
        requires
            old(self).wf(),
        ensures
            final(self).wf(),
            final(self).bytes@ == old(self).bytes@,
            (old(self).unread().len() >= 8 && word_value(old(self).unread()) <= usize::MAX)
                ==> r == Ok::<usize, IoError>(word_value(old(self).unread()) as usize)
                && final(self).pos == old(self).pos + 8,
            !(old(self).unread().len() >= 8 && word_value(old(self).unread()) <= usize::MAX)
                ==> r == Err::<usize, IoError>(IoError) && final(self).pos == old(self).pos,
    {
        let start = self.pos;
        let v = match self.read_u64() {
            Ok(v) => v,
            Err(e) => {
                return Err(e);
            },
        };
        if v > usize::MAX as u64 {
            self.pos = start;
            return Err(IoError);
        }
        Ok(v as usize)
    }

    /// Reads a field element written by `write_field`; the value must be canonical.
    pub fn read_field(&mut self) -> (r: Result<u64, IoError>)
        requires
            old(self).wf(),
        ensures
            final(self).wf(),
            final(self).bytes@ == old(self).bytes@,
            (old(self).unread().len() >= 8 && is_canonical(word_value(old(self).unread()) as int))
                ==> r == Ok::<u64, IoError>(word_value(old(self).unread()) as u64)
                && final(self).pos == old(self).pos + 8,
            !(old(self).unread().len() >= 8 && is_canonical(word_value(old(self).unread()) as int))
                ==> r == Err::<u64, IoError>(IoError) && final(self).pos == old(self).pos,
    {
        let start = self.pos;
        let v = match self.read_u64() {
            Ok(v) => v,
            Err(e) => {
                return Err(e);
            },
        };
        if v >= ORDER {
            self.pos = start;
            return Err(IoError);
        }
        Ok(v)
    }
}

fn write_le(dst: &mut Vec<u8>, x: u64, n: usize)
    ensures
        final(dst)@ == old(dst)@ + le_bytes(x as nat, n as nat),
    decreases n,
{
    if n > 0 {
        dst.push((x % 256) as u8);
        write_le(dst, x / 256, n - 1);
        assert(final(dst)@ =~= old(dst)@ + le_bytes(x as nat, n as nat));
    } else {
        assert(final(dst)@ =~= old(dst)@ + le_bytes(x as nat, n as nat));
    }
}

/// Appends the eight little-endian bytes of `x`.
pub fn write_usize(dst: &mut Vec<u8>, x: usize)
    ensures
        final(dst)@ == old(dst)@ + word_bytes(x as nat),
{
    write_le(dst, x as u64, 8);
}

/// Appends the eight little-endian bytes of a canonical field element.
pub fn write_field(dst: &mut Vec<u8>, x: u64)
    ensures
        final(dst)@ == old(dst)@ + word_bytes(x as nat),
{
    write_le(dst, x, 8);
}

/// Reading the encoding of `x`, whatever follows it, gives back `x`.
pub proof fn lemma_word_round_trip(x: u64, rest: Seq<u8>)
    ensures
        (word_bytes(x as nat) + rest).len() == 8 + rest.len(),
        word_value(word_bytes(x as nat) + rest) == x,
{
    lemma_pow256_8();
    lemma_le_round_trip(x as nat, 8);
    assert((word_bytes(x as nat) + rest).subrange(0, 8) =~= word_bytes(x as nat));
}

impl<const D: usize> ArithmeticExtensionGate<D> {
    /// The encoding of a gate: its number of operations.
    pub open spec fn to_bytes(self) -> Seq<u8> {
        word_bytes(self.num_ops as nat)
    }

    /// The arithmetic extension gate encoded at the start of `s`, if `s` holds one.
    pub open spec fn from_bytes(s: Seq<u8>) -> Option<Self> {
        if s.len() >= 8 && word_value(s) <= usize::MAX {
            Some(Self { num_ops: word_value(s) as usize })
        } else {
            None
        }
    }

    pub fn serialize(&self, dst: &mut Vec<u8>)
        ensures
            final(dst)@ == old(dst)@ + self.to_bytes(),
    {
        write_usize(dst, self.num_ops);
    }

    /// Decodes a gate from `src`, moving past its eight bytes; on malformed
    /// or missing bytes fails and leaves `src` where it was.
    pub fn deserialize(src: &mut Buffer) -> (r: Result<Self, IoError>)
        requires
            old(src).wf(),
        ensures
            final(src).wf(),
            final(src).bytes@ == old(src).bytes@,
            match Self::from_bytes(old(src).unread()) {
                Some(g) => r == Ok::<Self, IoError>(g) && final(src).pos == old(src).pos + 8,
                None => r == Err::<Self, IoError>(IoError) && final(src).pos == old(src).pos,
            },
    {
        match src.read_usize() {
            Ok(num_ops) => Ok(Self { num_ops }),
            Err(e) => Err(e),
        }
    }
}

/// Decoding the encoding of an arithmetic extension gate, whatever follows it, gives it back.
pub proof fn lemma_gate_round_trip<const D: usize>(g: ArithmeticExtensionGate<D>, rest: Seq<u8>)
    ensures
        ArithmeticExtensionGate::<D>::from_bytes(g.to_bytes() + rest) == Some(g),
{
    lemma_word_round_trip(g.num_ops as u64, rest);
}

impl<const D: usize> ArithmeticExtensionGenerator<D> {
    /// The encoding of a generator: row, both weights and operation index.
    pub open spec fn to_bytes(self) -> Seq<u8> {
        word_bytes(self.row as nat) + word_bytes(self.const_0 as nat) + word_bytes(
            self.const_1 as nat,
        ) + word_bytes(self.i as nat)
    }

    /// The generator encoded at the start of `s`, if `s` holds one.
    pub open spec fn from_bytes(s: Seq<u8>) -> Option<Self> {
        if s.len() >= 32 && word_at(s, 0) <= usize::MAX && is_canonical(word_at(s, 1) as int)
            && is_canonical(word_at(s, 2) as int) && word_at(s, 3) <= usize::MAX {
            Some(
                Self {
                    row: word_at(s, 0) as usize,
                    const_0: word_at(s, 1) as u64,
                    const_1: word_at(s, 2) as u64,
                    i: word_at(s, 3) as usize,
                },
            )
        } else {
            None
        }
    }

    pub fn serialize(&self, dst: &mut Vec<u8>)
        ensures
            final(dst)@ == old(dst)@ + self.to_bytes(),
    {
        write_usize(dst, self.row);
        write_field(dst, self.const_0);
        write_field(dst, self.const_1);
        write_usize(dst, self.i);
        assert(final(dst)@ =~= old(dst)@ + self.to_bytes());
    }

    /// Decodes a generator from `src`, moving past its 32 bytes; on malformed
    /// or missing bytes fails and leaves `src` where it was.
    pub fn deserialize(src: &mut Buffer) -> (r: Result<Self, IoError>)
        requires
            old(src).wf(),
        ensures
            final(src).wf(),
            final(src).bytes@ == old(src).bytes@,
            match Self::from_bytes(old(src).unread()) {
                Some(g) => r == Ok::<Self, IoError>(g) && final(src).pos == old(src).pos + 32,
                None => r == Err::<Self, IoError>(IoError) && final(src).pos == old(src).pos,
            },
    {
        let start = src.pos;
        let ghost u = src.unread();
        if src.remaining() < 32 {
            return Err(IoError);
        }
        assert(src.unread().subrange(0, 8) =~= u.subrange(0, 8));
        let row = match src.read_usize() {
            Ok(v) => v,
            Err(e) => {
                return Err(e);
            },
        };
        assert(src.unread().subrange(0, 8) =~= u.subrange(8, 16));
        let const_0 = match src.read_field() {
            Ok(v) => v,
            Err(e) => {
                src.pos = start;
                return Err(e);
            },
        };
        assert(src.unread().subrange(0, 8) =~= u.subrange(16, 24));
        let const_1 = match src.read_field() {
            Ok(v) => v,
            Err(e) => {
                src.pos = start;
                return Err(e);
            },
        };
        assert(src.unread().subrange(0, 8) =~= u.subrange(24, 32));
        let i = match src.read_usize() {
            Ok(v) => v,
            Err(e) => {
                src.pos = start;
                return Err(e);
            },
        };
        Ok(Self { row, const_0, const_1, i })
    }
}

/// Decoding the encoding of a generator with canonical weights, whatever
/// follows it, gives back the generator.
pub proof fn lemma_generator_round_trip<const D: usize>(
    g: ArithmeticExtensionGenerator<D>,
    rest: Seq<u8>,
)
    requires
        is_canonical(g.const_0 as int),
        is_canonical(g.const_1 as int),
    ensures
        ArithmeticExtensionGenerator::<D>::from_bytes(g.to_bytes() + rest) == Some(g),
{
    let s = g.to_bytes() + rest;
    lemma_pow256_8();
    lemma_le_round_trip(g.row as nat, 8);
    lemma_le_round_trip(g.const_0 as nat, 8);
    lemma_le_round_trip(g.const_1 as nat, 8);
    lemma_le_round_trip(g.i as nat, 8);
    assert(s.subrange(0, 8) =~= word_bytes(g.row as nat));
    assert(s.subrange(8, 16) =~= word_bytes(g.const_0 as nat));
    assert(s.subrange(16, 24) =~= word_bytes(g.const_1 as nat));
    assert(s.subrange(24, 32) =~= word_bytes(g.i as nat));
}

} // verus!
