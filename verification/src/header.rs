//! The fixed 12-octet DNS header: id, two flag octets, four counts.

use vstd::prelude::*;

use crate::buffer::be16;
use crate::buffer::BytePacketBuffer;
use crate::buffer::splice;
use crate::buffer::u16_bytes;
use crate::buffer::lemma_be16_bytes;
use crate::types::DnsError;
use crate::types::ResultCode;

verus! {

/// A flag as the integer 0 or 1.
pub open spec fn b2n(b: bool) -> int {
    if b {
        1
    } else {
        0
    }
}

/// The parsed DNS header.
#[derive(Debug, Clone, Copy, PartialEq, Eq, Structural)]
pub struct DNSHeader {
    pub id: u16,
    pub recursion_desired: bool,
    pub truncated_message: bool,
    pub authoritative_answer: bool,
    pub opcode: u8,
    pub response: bool,
    pub rescode: ResultCode,
    pub checking_disabled: bool,
    pub authed_data: bool,
    pub z: bool,
    pub recursion_available: bool,
    pub questions: u16,
    pub answers: u16,
    pub authoritative_entries: u16,
    pub resource_entries: u16,
}

/// First flags octet: RD, TC, AA, the four opcode bits, QR.
pub open spec fn flags_a(h: DNSHeader) -> u8 {
    (b2n(h.recursion_desired) + 2 * b2n(h.truncated_message) + 4 * b2n(h.authoritative_answer) + 8
        * (h.opcode as int) + 128 * b2n(h.response)) as u8
}

/// Second flags octet: the rescode nibble, CD, AD, Z, RA.
pub open spec fn flags_b(h: DNSHeader) -> u8 {
    (h.rescode.spec_to_num() as int + 16 * b2n(h.checking_disabled) + 32 * b2n(h.authed_data) + 64
        * b2n(h.z) + 128 * b2n(h.recursion_available)) as u8
}

/// The header's 12 octets on the wire.
pub open spec fn enc_header(h: DNSHeader) -> Seq<u8> {
    u16_bytes(h.id) + seq![flags_a(h), flags_b(h)] + u16_bytes(h.questions) + u16_bytes(h.answers)
        + u16_bytes(h.authoritative_entries) + u16_bytes(h.resource_entries)
}

/// Reading a header at `p`: twelve octets, or `OutOfBounds`.
pub open spec fn parse_header(buf: Seq<u8>, p: int) -> Result<(DNSHeader, int), DnsError> {
    if p < 0 || p + 12 > 512 {
        Err(DnsError::OutOfBounds)
    } else {
        let a = buf[p + 2];
        let b = buf[p + 3];
        Ok(
            (
                DNSHeader {
                    id: be16(buf[p], buf[p + 1]),
                    recursion_desired: a as int % 2 == 1,
                    truncated_message: a as int / 2 % 2 == 1,
                    authoritative_answer: a as int / 4 % 2 == 1,
                    opcode: (a as int / 8 % 16) as u8,
                    response: a as int / 128 % 2 == 1,
                    rescode: ResultCode::spec_from_num((b as int % 16) as u8),
                    checking_disabled: b as int / 16 % 2 == 1,
                    authed_data: b as int / 32 % 2 == 1,
                    z: b as int / 64 % 2 == 1,
                    recursion_available: b as int / 128 % 2 == 1,
                    questions: be16(buf[p + 4], buf[p + 5]),
                    answers: be16(buf[p + 6], buf[p + 7]),
                    authoritative_entries: be16(buf[p + 8], buf[p + 9]),
                    resource_entries: be16(buf[p + 10], buf[p + 11]),
                },
                p + 12,
            ),
        )
    }
}

impl DNSHeader {
    /// The opcode fits its four bits.
    pub open spec fn wf(self) -> bool {
        self.opcode < 16
    }

    /// An all-zero header.
    pub fn new() -> (r: DNSHeader)
        ensures
            r == (DNSHeader {
                id: 0u16,
                recursion_desired: false,
                truncated_message: false,
                authoritative_answer: false,
                opcode: 0u8,
                response: false,
                rescode: ResultCode::NOERROR,
                checking_disabled: false,
                authed_data: false,
                z: false,
                recursion_available: false,
                questions: 0u16,
                answers: 0u16,
                authoritative_entries: 0u16,
                resource_entries: 0u16,
            }),
            r.wf(),
    {
        DNSHeader {
            id: 0,
            recursion_desired: false,
            truncated_message: false,
            authoritative_answer: false,
            opcode: 0,
            response: false,
            rescode: ResultCode::NOERROR,
            checking_disabled: false,
            authed_data: false,
            z: false,
            recursion_available: false,
            questions: 0,
            answers: 0,
            authoritative_entries: 0,
            resource_entries: 0,
        }
    }

    /// Fill `self` from the twelve octets at the cursor.
    #[verifier::rlimit(100)]
    pub fn read(&mut self, buffer: &mut BytePacketBuffer) -> (r: Result<(), DnsError>)
        requires
            old(buffer).wf(),
        ensures
            final(buffer).wf(),
            final(buffer).buf@ == old(buffer).buf@,
            match r {
                Ok(()) => parse_header(old(buffer).buf@, old(buffer).pos as int) == Ok::<
                    (DNSHeader, int),
                    DnsError,
                >((*final(self), final(buffer).pos as int)) && final(self).wf(),
                Err(e) => parse_header(old(buffer).buf@, old(buffer).pos as int) == Err::<
                    (DNSHeader, int),
                    DnsError,
                >(e),
            },
    {
        let id = match buffer.read_u16() {
            Ok(v) => v,
            Err(e) => {
                return Err(e);
            },
        };
        self.id = id;

        let flags = match buffer.read_u16() {
            Ok(v) => v,
            Err(e) => {
                return Err(e);
            },
        };
        let a = (flags / 256) as u8;
        let b = (flags % 256) as u8;

        self.recursion_desired = a % 2 == 1;
        self.truncated_message = a / 2 % 2 == 1;
        self.authoritative_answer = a / 4 % 2 == 1;
        self.opcode = a / 8 % 16;
        self.response = a / 128 % 2 == 1;

        self.rescode = ResultCode::from_num(b % 16);
        self.checking_disabled = b / 16 % 2 == 1;
        self.authed_data = b / 32 % 2 == 1;
        self.z = b / 64 % 2 == 1;
        self.recursion_available = b / 128 % 2 == 1;

        self.questions = match buffer.read_u16() {
            Ok(v) => v,
            Err(e) => {
                return Err(e);
            },
        };
        self.answers = match buffer.read_u16() {
            Ok(v) => v,
            Err(e) => {
                return Err(e);
            },
        };
        self.authoritative_entries = match buffer.read_u16() {
            Ok(v) => v,
            Err(e) => {
                return Err(e);
            },
        };
        self.resource_entries = match buffer.read_u16() {
            Ok(v) => v,
            Err(e) => {
                return Err(e);
            },
        };
        Ok(())
    }

    /// The first flags octet of `self`.
    fn flags_a_x(&self) -> (a: u8)
        requires
            self.wf(),
        ensures
            a == flags_a(*self),
    {
        let rd: u8 = if self.recursion_desired {
            1
        } else {
            0
        };
        let tc: u8 = if self.truncated_message {
            2
        } else {
            0
        };
        let aa: u8 = if self.authoritative_answer {
            4
        } else {
            0
        };
        let qr: u8 = if self.response {
            128
        } else {
            0
        };
        rd + tc + aa + self.opcode * 8 + qr
    }

    /// The second flags octet of `self`.
    fn flags_b_x(&self) -> (b: u8)
        ensures
            b == flags_b(*self),
    {
        let cd: u8 = if self.checking_disabled {
            16
        } else {
            0
        };
        let ad: u8 = if self.authed_data {
            32
        } else {
            0
        };
        let zz: u8 = if self.z {
            64
        } else {
            0
        };
        let ra: u8 = if self.recursion_available {
            128
        } else {
            0
        };
        self.rescode.to_num() + cd + ad + zz + ra
    }

    /// The twelve wire octets of `self`.
    fn to_bytes(&self) -> (v: Vec<u8>)
        requires
            self.wf(),
        ensures
            v@ == enc_header(*self),
    {
        let mut octets: Vec<u8> = Vec::new();
        octets.push((self.id / 256) as u8);
        octets.push((self.id % 256) as u8);
        octets.push(self.flags_a_x());
        octets.push(self.flags_b_x());
        octets.push((self.questions / 256) as u8);
        octets.push((self.questions % 256) as u8);
        octets.push((self.answers / 256) as u8);
        octets.push((self.answers % 256) as u8);
        octets.push((self.authoritative_entries / 256) as u8);
        octets.push((self.authoritative_entries % 256) as u8);
        octets.push((self.resource_entries / 256) as u8);
        octets.push((self.resource_entries % 256) as u8);
        proof {
            assert(octets@ =~= enc_header(*self));
        }
        octets
    }

    /// Emit the twelve octets of `self` at the cursor.
    pub fn write(&self, buffer: &mut BytePacketBuffer) -> (r: Result<(), DnsError>)
        requires
            old(buffer).wf(),
            self.wf(),
        ensures
            final(buffer).wf(),
            match r {
                Ok(()) => old(buffer).pos + 12 <= 512 && final(buffer).pos == old(buffer).pos + 12
                    && final(buffer).buf@ == splice(
                    old(buffer).buf@,
                    old(buffer).pos as int,
                    enc_header(*self),
                ),
                Err(e) => e == DnsError::OutOfBounds && old(buffer).pos + 12 > 512
                    && *final(buffer) == *old(buffer),
            },
    {
        let octets = self.to_bytes();
        proof {
            assert(octets@.len() == 12);
        }
        buffer.write_bytes(&octets)
    }
}

/// The two flag octets decode back to the fields they were built from.
proof fn lemma_flags_round_trip(h: DNSHeader)
    requires
        h.wf(),
    ensures
        flags_a(h) as int % 2 == 1 <==> h.recursion_desired,
        flags_a(h) as int / 2 % 2 == 1 <==> h.truncated_message,
        flags_a(h) as int / 4 % 2 == 1 <==> h.authoritative_answer,
        flags_a(h) as int / 8 % 16 == h.opcode,
        flags_a(h) as int / 128 % 2 == 1 <==> h.response,
        flags_b(h) as int % 16 == h.rescode.spec_to_num(),
        flags_b(h) as int / 16 % 2 == 1 <==> h.checking_disabled,
        flags_b(h) as int / 32 % 2 == 1 <==> h.authed_data,
        flags_b(h) as int / 64 % 2 == 1 <==> h.z,
        flags_b(h) as int / 128 % 2 == 1 <==> h.recursion_available,
{
    let rd: u8 = if h.recursion_desired {
        1
    } else {
        0
    };
    let tc: u8 = if h.truncated_message {
        1
    } else {
        0
    };
    let aa: u8 = if h.authoritative_answer {
        1
    } else {
        0
    };
    let qr: u8 = if h.response {
        1
    } else {
        0
    };
    let op: u8 = h.opcode;
    assert(flags_a(h) == rd + 2 * tc + 4 * aa + 8 * op + 128 * qr);
    assert(rd <= 1 && tc <= 1 && aa <= 1 && qr <= 1 && op < 16 ==> {
        let v: u8 = (rd + 2 * tc + 4 * aa + 8 * op + 128 * qr) as u8;
        (v % 2 == rd) && (v / 2 % 2 == tc) && (v / 4 % 2 == aa) && (v / 8 % 16 == op) && (v / 128
            % 2 == qr)
    }) by (bit_vector);

    let rc: u8 = h.rescode.spec_to_num();
    let cd: u8 = if h.checking_disabled {
        1
    } else {
        0
    };
    let ad: u8 = if h.authed_data {
        1
    } else {
        0
    };
    let zz: u8 = if h.z {
        1
    } else {
        0
    };
    let ra: u8 = if h.recursion_available {
        1
    } else {
        0
    };
    assert(flags_b(h) == rc + 16 * cd + 32 * ad + 64 * zz + 128 * ra);
    assert(rc < 16 && cd <= 1 && ad <= 1 && zz <= 1 && ra <= 1 ==> {
        let v: u8 = (rc + 16 * cd + 32 * ad + 64 * zz + 128 * ra) as u8;
        (v % 16 == rc) && (v / 16 % 2 == cd) && (v / 32 % 2 == ad) && (v / 64 % 2 == zz) && (v
            / 128 % 2 == ra)
    }) by (bit_vector);
}

/// Reading back an encoded header: where the buffer holds
/// `enc_header(h)` at `p`, parsing returns `h` itself.
pub proof fn lemma_parse_enc_header(buf: Seq<u8>, p: int, h: DNSHeader)
    requires
        buf.len() == 512,
        h.wf(),
        0 <= p,
        p + 12 <= 512,
        buf.subrange(p, p + 12) == enc_header(h),
    ensures
        parse_header(buf, p) == Ok::<(DNSHeader, int), DnsError>((h, p + 12)),
{
    let e = enc_header(h);
    assert forall|k: int| 0 <= k < 12 implies buf[p + k] == e[k] by {
        assert(buf.subrange(p, p + 12)[k] == buf[p + k]);
    }
    assert(e[0] == u16_bytes(h.id)[0]);
    assert(e[1] == u16_bytes(h.id)[1]);
    assert(e[2] == flags_a(h));
    assert(e[3] == flags_b(h));
    assert(e[4] == u16_bytes(h.questions)[0]);
    assert(e[5] == u16_bytes(h.questions)[1]);
    assert(e[6] == u16_bytes(h.answers)[0]);
    assert(e[7] == u16_bytes(h.answers)[1]);
    assert(e[8] == u16_bytes(h.authoritative_entries)[0]);
    assert(e[9] == u16_bytes(h.authoritative_entries)[1]);
    assert(e[10] == u16_bytes(h.resource_entries)[0]);
    assert(e[11] == u16_bytes(h.resource_entries)[1]);
    lemma_be16_bytes(h.id);
    lemma_be16_bytes(h.questions);
    lemma_be16_bytes(h.answers);
    lemma_be16_bytes(h.authoritative_entries);
    lemma_be16_bytes(h.resource_entries);
    lemma_flags_round_trip(h);
    assert(ResultCode::spec_from_num(h.rescode.spec_to_num()) == h.rescode);
    let parsed = parse_header(buf, p)->Ok_0.0;
    assert(parsed.opcode == h.opcode);
    assert(parsed == h);
}

} // verus!
