//! The 512-octet packet buffer.
//!
//! A `BytePacketBuffer` is the single datagram-sized value that every
//! encode and decode runs over: 512 octets and one cursor.  Reads and
//! writes are big-endian and bounds-checked; a step that would pass
//! octet 512 fails with `OutOfBounds` and the sizes never change.

use vstd::prelude::*;

use crate::name::enc_name;
use crate::name::lower_byte;
use crate::name::lower_seq;
use crate::name::name_sendable;
use crate::name::parse_qname_rec;
use crate::name::spec_read_qname;
use crate::name::split_labels;
use crate::name::split_labels_from;
use crate::name::enc_labels;
use crate::name::enc_label;
use crate::name::join1;
use crate::name::lemma_enc_labels_concat;
use crate::name::lemma_enc_name_len;
use crate::name::lemma_enc_split_len;
use crate::name::lemma_split_peel;
use crate::types::DnsError;

verus! {

/// Two octets read big-endian.
pub open spec fn be16(hi: u8, lo: u8) -> u16 {
    (hi as int * 256 + lo as int) as u16
}

/// Four octets read big-endian.
pub open spec fn be32(b0: u8, b1: u8, b2: u8, b3: u8) -> u32 {
    (b0 as int * 0x1000000 + b1 as int * 0x10000 + b2 as int * 256 + b3 as int) as u32
}

/// A 16-bit value as its two big-endian octets.
pub open spec fn u16_bytes(v: u16) -> Seq<u8> {
    seq![(v / 256) as u8, (v % 256) as u8]
}

/// A 32-bit value as its four big-endian octets.
pub open spec fn u32_bytes(v: u32) -> Seq<u8> {
    seq![
        (v / 0x1000000) as u8,
        ((v / 0x10000) % 256) as u8,
        ((v / 256) % 256) as u8,
        (v % 256) as u8,
    ]
}

/// Reading back the two octets of a 16-bit value gives the value.
pub proof fn lemma_be16_bytes(v: u16)
    ensures
        be16(u16_bytes(v)[0], u16_bytes(v)[1]) == v,
{
}

/// Reading back the four octets of a 32-bit value gives the value.
pub proof fn lemma_be32_bytes(v: u32)
    ensures
        be32(u32_bytes(v)[0], u32_bytes(v)[1], u32_bytes(v)[2], u32_bytes(v)[3]) == v,
{
}

/// The buffer one DNS datagram is decoded from or encoded into.
pub struct BytePacketBuffer {
    /// The 512 octets of the datagram.
    pub buf: Vec<u8>,
    /// The cursor: the next octet to read or write.
    pub pos: usize,
}

impl BytePacketBuffer {
    /// The buffer holds exactly 512 octets and the cursor stays inside
    /// them (one past the end included).
    pub open spec fn wf(self) -> bool {
        self.buf@.len() == 512 && self.pos <= 512
    }

    /// A zeroed buffer with the cursor at the start.
    pub fn new() -> (r: BytePacketBuffer)
        ensures
            r.wf(),
            r.pos == 0,
            r.buf@ == Seq::<u8>::new(512, |i: int| 0u8),
    {
        let v: Vec<u8> = vec![0u8; 512];
        proof {
            assert(v@ =~= Seq::<u8>::new(512, |i: int| 0u8));
        }
        BytePacketBuffer { buf: v, pos: 0 }
    }

    /// Advance the cursor by `amount` octets.
    pub fn skip(&mut self, amount: usize) -> (r: Result<(), DnsError>)
        requires
            old(self).wf(),
        ensures
            final(self).wf(),
            final(self).buf@ == old(self).buf@,
            match r {
                Ok(()) => old(self).pos + amount <= 512 && final(self).pos == old(self).pos
                    + amount,
                Err(e) => e == DnsError::OutOfBounds && old(self).pos + amount > 512 && *final(self)
                    == *old(self),
            },
    {
        if amount <= 512 - self.pos {
            self.pos = self.pos + amount;
            Ok(())
        } else {
            Err(DnsError::OutOfBounds)
        }
    }

    /// Place the cursor at `pos`.
    pub fn set_position(&mut self, pos: usize) -> (r: Result<(), DnsError>)
        requires
            old(self).wf(),
        ensures
            final(self).wf(),
            final(self).buf@ == old(self).buf@,
            match r {
                Ok(()) => pos <= 512 && final(self).pos == pos,
                Err(e) => e == DnsError::OutOfBounds && pos > 512 && *final(self) == *old(self),
            },
    {
        if pos <= 512 {
            self.pos = pos;
            Ok(())
        } else {
            Err(DnsError::OutOfBounds)
        }
    }

    /// The cursor has reached the end of the buffer.
    pub fn end_of_buf(&self) -> (r: bool)
        requires
            self.wf(),
        ensures
            r == (self.pos == 512),
    {
        self.pos >= 512
    }

    /// Read the octet under the cursor and advance by one.
    pub fn read_u8(&mut self) -> (r: Result<u8, DnsError>)
        requires
            old(self).wf(),
        ensures
            final(self).wf(),
            final(self).buf@ == old(self).buf@,
            match r {
                Ok(v) => old(self).pos < 512 && v == old(self).buf@[old(self).pos as int]
                    && final(self).pos == old(self).pos + 1,
                Err(e) => e == DnsError::OutOfBounds && old(self).pos == 512
                    && *final(self) == *old(self),
            },
    {
        if self.pos < 512 {
            let v = self.buf[self.pos];
            self.pos = self.pos + 1;
            Ok(v)
        } else {
            Err(DnsError::OutOfBounds)
        }
    }

    /// Read two octets big-endian and advance by two.
    pub fn read_u16(&mut self) -> (r: Result<u16, DnsError>)
        requires
            old(self).wf(),
        ensures
            final(self).wf(),
            final(self).buf@ == old(self).buf@,
            match r {
                Ok(v) => old(self).pos + 2 <= 512 && v == be16(
                    old(self).buf@[old(self).pos as int],
                    old(self).buf@[old(self).pos + 1],
                ) && final(self).pos == old(self).pos + 2,
                Err(e) => e == DnsError::OutOfBounds && old(self).pos + 2 > 512 && *final(self)
                    == *old(self),
            },
    {
        if self.pos + 2 <= 512 {
            let hi = self.buf[self.pos];
            let lo = self.buf[self.pos + 1];
            self.pos = self.pos + 2;
            Ok((hi as u16) * 256 + (lo as u16))
        } else {
            Err(DnsError::OutOfBounds)
        }
    }

    /// Read four octets big-endian and advance by four.
    pub fn read_u32(&mut self) -> (r: Result<u32, DnsError>)
        requires
            old(self).wf(),
        ensures
            final(self).wf(),
            final(self).buf@ == old(self).buf@,
            match r {
                Ok(v) => old(self).pos + 4 <= 512 && v == be32(
                    old(self).buf@[old(self).pos as int],
                    old(self).buf@[old(self).pos + 1],
                    old(self).buf@[old(self).pos + 2],
                    old(self).buf@[old(self).pos + 3],
                ) && final(self).pos == old(self).pos + 4,
                Err(e) => e == DnsError::OutOfBounds && old(self).pos + 4 > 512 && *final(self)
                    == *old(self),
            },
    {
        if self.pos + 4 <= 512 {
            let b0 = self.buf[self.pos];
            let b1 = self.buf[self.pos + 1];
            let b2 = self.buf[self.pos + 2];
            let b3 = self.buf[self.pos + 3];
            self.pos = self.pos + 4;
            Ok((b0 as u32) * 0x1000000 + (b1 as u32) * 0x10000 + (b2 as u32) * 256 + (b3 as u32))
        } else {
            Err(DnsError::OutOfBounds)
        }
    }

    /// Read the octet at `pos` without moving the cursor.
    pub fn peek(&self, pos: usize) -> (r: Result<u8, DnsError>)
        requires
            self.wf(),
        ensures
            match r {
                Ok(v) => pos < 512 && v == self.buf@[pos as int],
                Err(e) => e == DnsError::OutOfBounds && pos >= 512,
            },
    {
        if pos < 512 {
            Ok(self.buf[pos])
        } else {
            Err(DnsError::OutOfBounds)
        }
    }

    /// Copy `len` octets starting at `start`, without moving the cursor.
    pub fn peek_many(&self, start: usize, len: usize) -> (r: Result<Vec<u8>, DnsError>)
        requires
            self.wf(),
        ensures
            match r {
                Ok(v) => start + len <= 512 && v@ == self.buf@.subrange(
                    start as int,
                    start + len,
                ),
                Err(e) => e == DnsError::OutOfBounds && start + len > 512,
            },
    {
        if len <= 512 && start <= 512 - len {
            let mut v: Vec<u8> = Vec::new();
            let mut k: usize = 0;
            while k < len
                invariant
                    k <= len,
                    start + len <= 512,
                    self.wf(),
                    v@ == self.buf@.subrange(start as int, start + k),
                decreases len - k,
            {
                v.push(self.buf[start + k]);
                proof {
                    assert(v@ =~= self.buf@.subrange(start as int, start + k + 1));
                }
                k = k + 1;
            }
            Ok(v)
        } else {
            Err(DnsError::OutOfBounds)
        }
    }

    /// Overwrite the octet at `pos`; the cursor stays put.
    pub fn set_u8_at(&mut self, pos: usize, value: u8) -> (r: Result<(), DnsError>)
        requires
            old(self).wf(),
        ensures
            final(self).wf(),
            final(self).pos == old(self).pos,
            match r {
                Ok(()) => pos < 512 && final(self).buf@ == old(self).buf@.update(
                    pos as int,
                    value,
                ),
                Err(e) => e == DnsError::OutOfBounds && pos >= 512 && *final(self) == *old(self),
            },
    {
        if pos < 512 {
            self.buf.set(pos, value);
            Ok(())
        } else {
            Err(DnsError::OutOfBounds)
        }
    }

    /// Overwrite two octets at `pos` with `value` big-endian; used to
    /// back-patch a record's length field.  The cursor stays put.
    pub fn set_u16_at(&mut self, pos: usize, value: u16) -> (r: Result<(), DnsError>)
        requires
            old(self).wf(),
        ensures
            final(self).wf(),
            final(self).pos == old(self).pos,
            match r {
                Ok(()) => pos + 2 <= 512 && final(self).buf@ == old(self).buf@.update(
                    pos as int,
                    u16_bytes(value)[0],
                ).update(pos + 1, u16_bytes(value)[1]),
                Err(e) => e == DnsError::OutOfBounds && pos + 2 > 512 && *final(self) == *old(self),
            },
    {
        if pos <= 510 {
            self.buf.set(pos, (value / 256) as u8);
            self.buf.set(pos + 1, (value % 256) as u8);
            Ok(())
        } else {
            Err(DnsError::OutOfBounds)
        }
    }

    /// Write one octet at the cursor and advance by one.
    pub fn write(&mut self, value: u8) -> (r: Result<(), DnsError>)
        requires
            old(self).wf(),
        ensures
            final(self).wf(),
            match r {
                Ok(()) => old(self).pos < 512 && final(self).buf@ == old(self).buf@.update(
                    old(self).pos as int,
                    value,
                ) && final(self).pos == old(self).pos + 1,
                Err(e) => e == DnsError::OutOfBounds && old(self).pos == 512 && *final(self)
                    == *old(self),
            },
    {
        if self.pos < 512 {
            self.buf.set(self.pos, value);
            self.pos = self.pos + 1;
            Ok(())
        } else {
            Err(DnsError::OutOfBounds)
        }
    }

    /// Write one octet at the cursor and advance by one.
    pub fn write_u8(&mut self, value: u8) -> (r: Result<(), DnsError>)
        requires
            old(self).wf(),
        ensures
            final(self).wf(),
            match r {
                Ok(()) => old(self).pos < 512 && final(self).buf@ == old(self).buf@.update(
                    old(self).pos as int,
                    value,
                ) && final(self).pos == old(self).pos + 1,
                Err(e) => e == DnsError::OutOfBounds && old(self).pos == 512 && *final(self)
                    == *old(self),
            },
    {
        self.write(value)
    }

    /// Write two octets big-endian at the cursor and advance by two.
    pub fn write_u16(&mut self, value: u16) -> (r: Result<(), DnsError>)
        requires
            old(self).wf(),
        ensures
            final(self).wf(),
            match r {
                Ok(()) => old(self).pos + 2 <= 512 && final(self).buf@ == splice(
                    old(self).buf@,
                    old(self).pos as int,
                    u16_bytes(value),
                ) && final(self).pos == old(self).pos + 2,
                Err(e) => e == DnsError::OutOfBounds && old(self).pos + 2 > 512 && *final(self)
                    == *old(self),
            },
    {
        if self.pos + 2 <= 512 {
            let ghost b0 = self.buf@;
            let ghost p0 = self.pos as int;
            self.buf.set(self.pos, (value / 256) as u8);
            self.buf.set(self.pos + 1, (value % 256) as u8);
            self.pos = self.pos + 2;
            proof {
                assert(self.buf@ =~= splice(b0, p0, u16_bytes(value)));
            }
            Ok(())
        } else {
            Err(DnsError::OutOfBounds)
        }
    }

    /// Write four octets big-endian at the cursor and advance by four.
    pub fn write_u32(&mut self, value: u32) -> (r: Result<(), DnsError>)
        requires
            old(self).wf(),
        ensures
            final(self).wf(),
            match r {
                Ok(()) => old(self).pos + 4 <= 512 && final(self).buf@ == splice(
                    old(self).buf@,
                    old(self).pos as int,
                    u32_bytes(value),
                ) && final(self).pos == old(self).pos + 4,
                Err(e) => e == DnsError::OutOfBounds && old(self).pos + 4 > 512 && *final(self)
                    == *old(self),
            },
    {
        if self.pos + 4 <= 512 {
            let ghost b0 = self.buf@;
            let ghost p0 = self.pos as int;
            self.buf.set(self.pos, (value / 0x1000000) as u8);
            self.buf.set(self.pos + 1, ((value / 0x10000) % 256) as u8);
            self.buf.set(self.pos + 2, ((value / 256) % 256) as u8);
            self.buf.set(self.pos + 3, (value % 256) as u8);
            self.pos = self.pos + 4;
            proof {
                assert(self.buf@ =~= splice(b0, p0, u32_bytes(value)));
            }
            Ok(())
        } else {
            Err(DnsError::OutOfBounds)
        }
    }
}

/// `s` with `patch` laid over it starting at `at`.
pub open spec fn splice(s: Seq<u8>, at: int, patch: Seq<u8>) -> Seq<u8> {
    s.subrange(0, at) + patch + s.subrange(at + patch.len(), s.len() as int)
}

impl BytePacketBuffer {
    /// Write all of `bytes` at the cursor, or nothing at all.
    #[verifier::loop_isolation(false)]
    pub fn write_bytes(&mut self, bytes: &Vec<u8>) -> (r: Result<(), DnsError>)
        requires
            old(self).wf(),
        ensures
            final(self).wf(),
            match r {
                Ok(()) => old(self).pos + bytes@.len() <= 512 && final(self).pos == old(self).pos
                    + bytes@.len() && final(self).buf@ == splice(
                    old(self).buf@,
                    old(self).pos as int,
                    bytes@,
                ),
                Err(e) => e == DnsError::OutOfBounds && old(self).pos + bytes@.len() > 512
                    && *final(self) == *old(self),
            },
    {
        let n = bytes.len();
        if n > 512 - self.pos {
            return Err(DnsError::OutOfBounds);
        }
        let ghost buf0 = old(self).buf@;
        let ghost p0 = old(self).pos as int;
        let mut k: usize = 0;
        proof {
            assert(self.buf@ =~= splice(buf0, p0, bytes@.subrange(0, 0)));
        }
        while k < n
            invariant
                k <= n,
                self.wf(),
                self.pos as int == p0 + k,
                self.buf@ == splice(buf0, p0, bytes@.subrange(0, k as int)),
            decreases n - k,
        {
            self.buf.set(self.pos, bytes[k]);
            self.pos = self.pos + 1;
            proof {
                lemma_splice_update(buf0, p0, bytes@.subrange(0, k as int), bytes@[k as int]);
                assert(bytes@.subrange(0, k as int).push(bytes@[k as int]) =~= bytes@.subrange(
                    0,
                    k + 1 as int,
                ));
            }
            k = k + 1;
        }
        proof {
            assert(bytes@.subrange(0, n as int) =~= bytes@);
        }
        Ok(())
    }
}

/// Writing `x` right after a patch `w` extends the patch.
pub proof fn lemma_splice_extend(s: Seq<u8>, at: int, w: Seq<u8>, x: Seq<u8>)
    requires
        s.len() == 512,
        0 <= at,
        at + w.len() + x.len() <= 512,
    ensures
        splice(splice(s, at, w), at + w.len(), x) == splice(s, at, w + x),
{
    assert(splice(splice(s, at, w), at + w.len(), x) =~= splice(s, at, w + x));
}

/// Overwriting the octet right after a patch `w` extends the patch.
pub proof fn lemma_splice_update(s: Seq<u8>, at: int, w: Seq<u8>, v: u8)
    requires
        s.len() == 512,
        0 <= at,
        at + w.len() + 1 <= 512,
    ensures
        splice(s, at, w).update(at + w.len(), v) == splice(s, at, w.push(v)),
{
    assert(splice(s, at, w).update(at + w.len(), v) =~= splice(s, at, w.push(v)));
}

/// Back-patching two octets inside a patch rewrites the patch.
pub proof fn lemma_splice_patch2(s: Seq<u8>, at: int, w: Seq<u8>, i: int, v0: u8, v1: u8)
    requires
        s.len() == 512,
        0 <= at,
        at + w.len() <= 512,
        0 <= i,
        i + 2 <= w.len(),
    ensures
        splice(s, at, w).update(at + i, v0).update(at + i + 1, v1) == splice(
            s,
            at,
            w.update(i, v0).update(i + 1, v1),
        ),
{
    assert(splice(s, at, w).update(at + i, v0).update(at + i + 1, v1) =~= splice(
        s,
        at,
        w.update(i, v0).update(i + 1, v1),
    ));
}

/// Reading two octets out of a region whose contents are known.
pub proof fn lemma_region_be16(buf: Seq<u8>, p: int, e: Seq<u8>, off: int, v: u16)
    requires
        buf.len() == 512,
        0 <= p,
        p + e.len() <= 512,
        buf.subrange(p, p + e.len()) == e,
        0 <= off,
        off + 2 <= e.len(),
        e[off] == u16_bytes(v)[0],
        e[off + 1] == u16_bytes(v)[1],
    ensures
        be16(buf[p + off], buf[p + off + 1]) == v,
{
    assert(buf.subrange(p, p + e.len())[off] == buf[p + off]);
    assert(buf.subrange(p, p + e.len())[off + 1] == buf[p + off + 1]);
    lemma_be16_bytes(v);
}

/// Reading four octets out of a region whose contents are known.
pub proof fn lemma_region_be32(buf: Seq<u8>, p: int, e: Seq<u8>, off: int, v: u32)
    requires
        buf.len() == 512,
        0 <= p,
        p + e.len() <= 512,
        buf.subrange(p, p + e.len()) == e,
        0 <= off,
        off + 4 <= e.len(),
        e[off] == u32_bytes(v)[0],
        e[off + 1] == u32_bytes(v)[1],
        e[off + 2] == u32_bytes(v)[2],
        e[off + 3] == u32_bytes(v)[3],
    ensures
        be32(buf[p + off], buf[p + off + 1], buf[p + off + 2], buf[p + off + 3]) == v,
{
    assert(buf.subrange(p, p + e.len())[off] == buf[p + off]);
    assert(buf.subrange(p, p + e.len())[off + 1] == buf[p + off + 1]);
    assert(buf.subrange(p, p + e.len())[off + 2] == buf[p + off + 2]);
    assert(buf.subrange(p, p + e.len())[off + 3] == buf[p + off + 3]);
    lemma_be32_bytes(v);
}

/// A region known to hold `a + b` holds `a` and then `b`.
pub proof fn lemma_region_split(buf: Seq<u8>, p: int, a: Seq<u8>, b: Seq<u8>)
    requires
        buf.len() == 512,
        0 <= p,
        p + a.len() + b.len() <= 512,
        buf.subrange(p, p + a.len() + b.len()) == a + b,
    ensures
        buf.subrange(p, p + a.len()) == a,
        buf.subrange(p + a.len(), p + a.len() + b.len()) == b,
{
    let whole = buf.subrange(p, p + a.len() + b.len());
    assert(buf.subrange(p, p + a.len()) =~= a) by {
        assert forall|k: int| 0 <= k < a.len() implies buf.subrange(p, p + a.len())[k] == a[k] by {
            assert(buf.subrange(p, p + a.len())[k] == buf[p + k]);
            assert(whole[k] == buf[p + k]);
            assert((a + b)[k] == a[k]);
        }
    }
    assert(buf.subrange(p + a.len(), p + a.len() + b.len()) =~= b) by {
        assert forall|k: int|
            0 <= k < b.len() implies buf.subrange(p + a.len(), p + a.len() + b.len())[k]
            == b[k] by {
            assert(buf.subrange(p + a.len(), p + a.len() + b.len())[k] == buf[p + a.len() + k]);
            assert(whole[a.len() + k] == buf[p + a.len() + k]);
            assert((a + b)[a.len() + k] == b[k]);
        }
    }
}

/// ASCII lowercasing of one octet, as executable code.
pub fn lower_byte_x(b: u8) -> (r: u8)
    ensures
        r == lower_byte(b),
{
    if 65 <= b && b <= 90 {
        b + 32
    } else {
        b
    }
}

impl BytePacketBuffer {
    /// Read a possibly-compressed domain name at the cursor into `out`:
    /// labels joined by dots, ASCII-lowercased, no trailing dot.  After a
    /// name free of pointers the cursor sits just past its zero octet;
    /// after a name that used a pointer it sits two octets past the
    /// name's start.  More than five pointer hops fail with `JumpLimit`.
    #[verifier::loop_isolation(false)]
    pub fn read_qname(&mut self, out: &mut Vec<u8>) -> (r: Result<(), DnsError>)
        requires
            old(self).wf(),
        ensures
            final(self).wf(),
            final(self).buf@ == old(self).buf@,
            match r {
                Ok(()) => spec_read_qname(old(self).buf@, old(self).pos as int) == Ok::<
                    (Seq<u8>, int),
                    DnsError,
                >((final(out)@, final(self).pos as int)),
                Err(e) => spec_read_qname(old(self).buf@, old(self).pos as int) == Err::<
                    (Seq<u8>, int),
                    DnsError,
                >(e),
            },
    {
        out.clear();
        let ghost buf0 = old(self).buf@;
        let ghost pos0 = old(self).pos as int;
        let mut lpos: usize = self.pos;
        let mut jumped: bool = false;
        let mut hops: u32 = 0;
        let ghost mut cur: Option<int> = Option::None;
        loop
            invariant
                self.wf(),
                self.buf@ == buf0,
                lpos < 16384,
                hops <= 6,
                jumped ==> cur == Option::Some(self.pos as int),
                !jumped ==> cur is None && self.pos as int == pos0,
                parse_qname_rec(buf0, pos0, 0, Seq::<u8>::empty(), Option::None)
                    == parse_qname_rec(buf0, lpos as int, hops as int, out@, cur),
            decreases 6 - hops as int, 512 - lpos as int,
        {
            if hops > 5 {
                return Err(DnsError::JumpLimit);
            }
            if lpos >= 512 {
                return Err(DnsError::OutOfBounds);
            }
            let len = self.buf[lpos];
            if len >= 192 {
                if !jumped {
                    match self.set_position(lpos + 2) {
                        Ok(()) => {},
                        Err(e) => {
                            return Err(e);
                        },
                    }
                    jumped = true;
                    proof {
                        cur = Option::Some(lpos + 2 as int);
                    }
                }
                if lpos + 1 >= 512 {
                    return Err(DnsError::OutOfBounds);
                }
                let b2 = self.buf[lpos + 1];
                lpos = (len - 192) as usize * 256 + b2 as usize;
                hops = hops + 1;
            } else if len == 0 {
                if !jumped {
                    match self.set_position(lpos + 1) {
                        Ok(()) => {},
                        Err(_) => {
                            proof {
                                assert(false);
                            }
                            return Err(DnsError::OutOfBounds);
                        },
                    }
                }
                return Ok(());
            } else {
                let lab_len = len as usize;
                if lpos + 1 + lab_len > 512 {
                    return Err(DnsError::OutOfBounds);
                }
                let ghost acc0 = out@;
                if out.len() > 0 {
                    out.push(46);
                }
                let ghost pre = out@;
                let end = lpos + 1 + lab_len;
                let mut k = lpos + 1;
                while k < end
                    invariant
                        lpos + 1 <= k <= end,
                        end == lpos + 1 + lab_len,
                        end <= 512,
                        self.wf(),
                        self.buf@ == buf0,
                        out@ == pre + lower_seq(buf0.subrange(lpos + 1, k as int)),
                    decreases end - k,
                {
                    let b = self.buf[k];
                    out.push(lower_byte_x(b));
                    proof {
                        assert(lower_seq(buf0.subrange(lpos + 1, k + 1 as int)) =~= lower_seq(
                            buf0.subrange(lpos + 1, k as int),
                        ).push(lower_byte(buf0[k as int])));
                    }
                    k = k + 1;
                }
                proof {
                    assert(out@ == join1(acc0, lower_seq(buf0.subrange(lpos + 1, end as int))))
                        by {
                        if acc0.len() == 0 {
                            assert(pre =~= acc0);
                            assert(out@ =~= lower_seq(buf0.subrange(lpos + 1, end as int)));
                        } else {
                            assert(pre =~= acc0 + seq![46u8]);
                            assert(out@ =~= acc0 + seq![46u8] + lower_seq(
                                buf0.subrange(lpos + 1, end as int),
                            ));
                        }
                    }
                }
                lpos = end;
            }
        }
    }

    /// Write `qname` at the cursor as length-prefixed labels ended by a
    /// zero octet; no compression is used.  A label longer than 63
    /// octets fails with `LabelTooLong`; a name that would pass octet
    /// 512 fails with `OutOfBounds`.
    #[verifier::loop_isolation(false)]
    #[verifier::rlimit(60)]
    pub fn write_qname(&mut self, qname: &Vec<u8>) -> (r: Result<(), DnsError>)
        requires
            old(self).wf(),
        ensures
            final(self).wf(),
            match r {
                Ok(()) => name_sendable(qname@) && old(self).pos + qname@.len() + 2 <= 512
                    && final(self).pos == old(self).pos + qname@.len() + 2
                    && final(self).buf@ == splice(
                    old(self).buf@,
                    old(self).pos as int,
                    enc_name(qname@),
                ),
                Err(e) => {
                    &&& !(name_sendable(qname@) && old(self).pos + qname@.len() + 2 <= 512)
                    &&& (e == DnsError::LabelTooLong || e == DnsError::OutOfBounds)
                    &&& (e == DnsError::LabelTooLong ==> !name_sendable(qname@))
                    &&& (e == DnsError::OutOfBounds ==> old(self).pos + qname@.len() + 2 > 512)
                },
            },
    {
        let ghost s = qname@;
        let ghost buf0 = old(self).buf@;
        let ghost pos0 = old(self).pos as int;
        let n = qname.len();
        let mut start: usize = 0;
        let ghost mut done: Seq<Seq<u8>> = Seq::<Seq<u8>>::empty();
        proof {
            assert(done + split_labels_from(s, 0, Seq::<u8>::empty()) =~= split_labels_from(
                s,
                0,
                Seq::<u8>::empty(),
            ));
            assert(self.buf@ =~= splice(buf0, pos0, enc_labels(done)));
        }
        loop
            invariant
                self.wf(),
                buf0.len() == 512,
                0 <= pos0 <= 512,
                n == s.len(),
                start <= n,
                s == qname@,
                self.pos as int == pos0 + enc_labels(done).len(),
                self.buf@ == splice(buf0, pos0, enc_labels(done)),
                split_labels(s) == done + split_labels_from(s, start as int, Seq::<u8>::empty()),
                forall|k: int| 0 <= k < done.len() ==> (#[trigger] done[k]).len() <= 63,
            decreases n - start,
        {
            // find the end of the current label
            let mut j = start;
            while j < n && qname[j] != 46
                invariant
                    start <= j <= n,
                    n == qname@.len(),
                    forall|k: int| start <= k < j ==> qname@[k] != 46u8,
                decreases n - j,
            {
                j = j + 1;
            }
            proof {
                lemma_split_peel(s, start as int, j as int, Seq::<u8>::empty());
            }
            let ghost label = s.subrange(start as int, j as int);
            let ghost rest = split_labels_from(s, start as int, Seq::<u8>::empty());
            proof {
                assert(Seq::<u8>::empty() + label =~= label);
                // total length of what is still to be written
                lemma_enc_split_len(s, start as int, Seq::<u8>::empty());
                lemma_enc_labels_concat(done, rest);
                assert(done + rest =~= split_labels(s));
                lemma_enc_split_len(s, 0, Seq::<u8>::empty());
                assert(enc_labels(done).len() + enc_labels(rest).len() == 1 + s.len());
            }
            let lab_len = j - start;
            if lab_len > 63 {
                proof {
                    assert(split_labels(s)[done.len() as int] == label);
                    assert(!name_sendable(s));
                }
                return Err(DnsError::LabelTooLong);
            }
            if 512 - self.pos < 1 + lab_len {
                proof {
                    assert(enc_labels(rest).len() == 1 + s.len() - start);
                    assert(pos0 + s.len() + 2 > 512);
                }
                return Err(DnsError::OutOfBounds);
            }
            // emit the length octet, then the label octets
            let ghost buf_pre = self.buf@;
            let ghost pos_pre = self.pos as int;
            self.buf.set(self.pos, lab_len as u8);
            self.pos = self.pos + 1;
            proof {
                assert(self.buf@ =~= splice(buf_pre, pos_pre, seq![lab_len as u8] + s.subrange(
                    start as int,
                    start as int,
                )));
            }
            let mut k = start;
            while k < j
                invariant
                    start <= k <= j <= n,
                    n == qname@.len(),
                    s == qname@,
                    buf_pre.len() == 512,
                    0 <= pos_pre,
                    pos_pre + 1 + (j - start) <= 512,
                    lab_len == j - start,
                    self.buf@.len() == 512,
                    self.pos as int == pos_pre + 1 + (k - start),
                    self.buf@ == splice(
                        buf_pre,
                        pos_pre,
                        seq![lab_len as u8] + s.subrange(start as int, k as int),
                    ),
                decreases j - k,
            {
                let ghost patch_pre = seq![lab_len as u8] + s.subrange(start as int, k as int);
                self.buf.set(self.pos, qname[k]);
                self.pos = self.pos + 1;
                proof {
                    assert(self.buf@ =~= splice(buf_pre, pos_pre, seq![lab_len as u8] + s.subrange(
                        start as int,
                        k + 1 as int,
                    )));
                }
                k = k + 1;
            }
            proof {
                // the label just written joins the finished ones
                let done2 = done.push(label);
                assert(done2 =~= done + seq![label]);
                lemma_enc_labels_concat(done, seq![label]);
                assert(enc_labels(seq![label]) =~= enc_label(label)) by {
                    assert(seq![label].drop_first() =~= Seq::<Seq<u8>>::empty());
                    assert(enc_label(label) + enc_labels(Seq::<Seq<u8>>::empty()) =~= enc_label(
                        label,
                    ));
                }
                assert(enc_label(label) =~= seq![lab_len as u8] + s.subrange(
                    start as int,
                    j as int,
                ));
                assert(self.buf@ =~= splice(buf0, pos0, enc_labels(done2)));
                done = done2;
            }
            if j < n {
                proof {
                    assert(split_labels(s) == done + split_labels_from(
                        s,
                        j + 1 as int,
                        Seq::<u8>::empty(),
                    )) by {
                        assert(rest == seq![label] + split_labels_from(
                            s,
                            j + 1 as int,
                            Seq::<u8>::empty(),
                        ));
                        assert((done.drop_last() + rest) =~= done.drop_last() + seq![label]
                            + split_labels_from(s, j + 1 as int, Seq::<u8>::empty()));
                        assert(done =~= done.drop_last().push(label));
                        assert(done.drop_last() + seq![label] =~= done);
                        assert(done + split_labels_from(s, j + 1 as int, Seq::<u8>::empty())
                            =~= done.drop_last() + rest);
                        assert(done.drop_last() + rest =~= split_labels(s));
                    }
                }
                start = j + 1;
            } else {
                // all labels written; emit the terminating zero octet
                proof {
                    assert(rest == seq![label]);
                    assert(split_labels(s) =~= done);
                    lemma_enc_split_len(s, 0, Seq::<u8>::empty());
                    assert(enc_labels(done).len() == 1 + s.len());
                }
                if self.pos >= 512 {
                    proof {
                        assert(pos0 + s.len() + 2 > 512);
                    }
                    return Err(DnsError::OutOfBounds);
                }
                let ghost buf_pre2 = self.buf@;
                let ghost pos_pre2 = self.pos as int;
                self.buf.set(self.pos, 0);
                self.pos = self.pos + 1;
                proof {
                    assert(name_sendable(s));
                    assert(enc_name(s) =~= enc_labels(done) + seq![0u8]);
                    assert(self.buf@ =~= splice(buf0, pos0, enc_name(s)));
                    lemma_enc_name_len(s);
                }
                return Ok(());
            }
        }
    }
}

} // verus!
