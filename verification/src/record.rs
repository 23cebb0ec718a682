//! Resource records: A, NS, CNAME, MX, AAAA, and an opaque rest.

use vstd::prelude::*;

use crate::buffer::be16;
use crate::buffer::be32;
use crate::buffer::BytePacketBuffer;
use crate::buffer::lemma_be16_bytes;
use crate::buffer::lemma_region_be16;
use crate::buffer::lemma_region_be32;
use crate::buffer::lemma_splice_extend;
use crate::buffer::lemma_splice_patch2;
use crate::buffer::splice;
use crate::buffer::u16_bytes;
use crate::buffer::u32_bytes;
use crate::name::enc_name;
use crate::name::lemma_enc_name_len;
use crate::name::lemma_read_encoded_name;
use crate::name::lower_seq;
use crate::name::name_sendable;
use crate::name::name_wf;
use crate::name::spec_read_qname;
use crate::types::DnsError;
use crate::types::Ipv4Addr;
use crate::types::Ipv6Addr;
use crate::types::QueryType;

verus! {

/// The mathematical shape of a resource record.
pub ghost enum RecordV {
    UNKNOWN { domain: Seq<u8>, qtype: u16, data_len: u16, ttl: u32 },
    A { domain: Seq<u8>, addr: Ipv4Addr, ttl: u32 },
    NS { domain: Seq<u8>, host: Seq<u8>, ttl: u32 },
    CNAME { domain: Seq<u8>, host: Seq<u8>, ttl: u32 },
    MX { domain: Seq<u8>, priority: u16, host: Seq<u8>, ttl: u32 },
    AAAA { domain: Seq<u8>, addr: Ipv6Addr, ttl: u32 },
}

/// A resource record.  The five supported types carry their decoded
/// payload; anything else is carried as `UNKNOWN` with its RDATA
/// skipped, not retained.
#[derive(Debug, Clone, PartialEq, Eq)]
pub enum DNSRecord {
    UNKNOWN { domain: Vec<u8>, qtype: u16, data_len: u16, ttl: u32 },
    A { domain: Vec<u8>, addr: Ipv4Addr, ttl: u32 },
    NS { domain: Vec<u8>, host: Vec<u8>, ttl: u32 },
    CNAME { domain: Vec<u8>, host: Vec<u8>, ttl: u32 },
    MX { domain: Vec<u8>, priority: u16, host: Vec<u8>, ttl: u32 },
    AAAA { domain: Vec<u8>, addr: Ipv6Addr, ttl: u32 },
}

impl View for DNSRecord {
    type V = RecordV;

    open spec fn view(&self) -> RecordV {
        match self {
            DNSRecord::UNKNOWN { domain, qtype, data_len, ttl } => RecordV::UNKNOWN {
                domain: domain@,
                qtype: *qtype,
                data_len: *data_len,
                ttl: *ttl,
            },
            DNSRecord::A { domain, addr, ttl } => RecordV::A {
                domain: domain@,
                addr: *addr,
                ttl: *ttl,
            },
            DNSRecord::NS { domain, host, ttl } => RecordV::NS {
                domain: domain@,
                host: host@,
                ttl: *ttl,
            },
            DNSRecord::CNAME { domain, host, ttl } => RecordV::CNAME {
                domain: domain@,
                host: host@,
                ttl: *ttl,
            },
            DNSRecord::MX { domain, priority, host, ttl } => RecordV::MX {
                domain: domain@,
                priority: *priority,
                host: host@,
                ttl: *ttl,
            },
            DNSRecord::AAAA { domain, addr, ttl } => RecordV::AAAA {
                domain: domain@,
                addr: *addr,
                ttl: *ttl,
            },
        }
    }
}

/// A record's octets on the wire.  `UNKNOWN` records are dropped on
/// encode, so their wire form is empty.  Fixed payloads carry their
/// true length; host payloads carry the length of the encoded name.
pub open spec fn enc_record(r: RecordV) -> Seq<u8> {
    match r {
        RecordV::UNKNOWN { .. } => Seq::<u8>::empty(),
        RecordV::A { domain, addr, ttl } => enc_name(domain) + u16_bytes(1u16) + u16_bytes(1u16)
            + u32_bytes(ttl) + u16_bytes(4u16) + seq![addr.o0, addr.o1, addr.o2, addr.o3],
        RecordV::NS { domain, host, ttl } => enc_name(domain) + u16_bytes(2u16) + u16_bytes(1u16)
            + u32_bytes(ttl) + u16_bytes((host.len() + 2) as u16) + enc_name(host),
        RecordV::CNAME { domain, host, ttl } => enc_name(domain) + u16_bytes(5u16) + u16_bytes(
            1u16,
        ) + u32_bytes(ttl) + u16_bytes((host.len() + 2) as u16) + enc_name(host),
        RecordV::MX { domain, priority, host, ttl } => enc_name(domain) + u16_bytes(15u16)
            + u16_bytes(1u16) + u32_bytes(ttl) + u16_bytes((host.len() + 4) as u16) + u16_bytes(
            priority,
        ) + enc_name(host),
        RecordV::AAAA { domain, addr, ttl } => enc_name(domain) + u16_bytes(28u16) + u16_bytes(
            1u16,
        ) + u32_bytes(ttl) + u16_bytes(16u16) + u16_bytes(addr.s0) + u16_bytes(addr.s1)
            + u16_bytes(addr.s2) + u16_bytes(addr.s3) + u16_bytes(addr.s4) + u16_bytes(addr.s5)
            + u16_bytes(addr.s6) + u16_bytes(addr.s7),
    }
}

/// Reading a record at `p`: name, type, class (ignored), ttl, RDATA
/// length, then the payload the type calls for.
pub open spec fn parse_record(buf: Seq<u8>, p: int) -> Result<(RecordV, int), DnsError> {
    match spec_read_qname(buf, p) {
        Err(e) => Err(e),
        Ok((domain, p1)) => if p1 + 10 > 512 {
            Err(DnsError::OutOfBounds)
        } else {
            let tnum = be16(buf[p1], buf[p1 + 1]);
            let ttl = be32(buf[p1 + 4], buf[p1 + 5], buf[p1 + 6], buf[p1 + 7]);
            let data_len = be16(buf[p1 + 8], buf[p1 + 9]);
            let p2 = p1 + 10;
            match QueryType::spec_from_num(tnum) {
                QueryType::A => if p2 + 4 <= 512 {
                    Ok(
                        (
                            RecordV::A {
                                domain,
                                addr: Ipv4Addr {
                                    o0: buf[p2],
                                    o1: buf[p2 + 1],
                                    o2: buf[p2 + 2],
                                    o3: buf[p2 + 3],
                                },
                                ttl,
                            },
                            p2 + 4,
                        ),
                    )
                } else {
                    Err(DnsError::OutOfBounds)
                },
                QueryType::NS => match spec_read_qname(buf, p2) {
                    Err(e) => Err(e),
                    Ok((host, p3)) => Ok((RecordV::NS { domain, host, ttl }, p3)),
                },
                QueryType::CNAME => match spec_read_qname(buf, p2) {
                    Err(e) => Err(e),
                    Ok((host, p3)) => Ok((RecordV::CNAME { domain, host, ttl }, p3)),
                },
                QueryType::MX => if p2 + 2 > 512 {
                    Err(DnsError::OutOfBounds)
                } else {
                    match spec_read_qname(buf, p2 + 2) {
                        Err(e) => Err(e),
                        Ok((host, p3)) => Ok(
                            (
                                RecordV::MX {
                                    domain,
                                    priority: be16(buf[p2], buf[p2 + 1]),
                                    host,
                                    ttl,
                                },
                                p3,
                            ),
                        ),
                    }
                },
                QueryType::AAAA => if p2 + 16 <= 512 {
                    Ok(
                        (
                            RecordV::AAAA {
                                domain,
                                addr: Ipv6Addr {
                                    s0: be16(buf[p2], buf[p2 + 1]),
                                    s1: be16(buf[p2 + 2], buf[p2 + 3]),
                                    s2: be16(buf[p2 + 4], buf[p2 + 5]),
                                    s3: be16(buf[p2 + 6], buf[p2 + 7]),
                                    s4: be16(buf[p2 + 8], buf[p2 + 9]),
                                    s5: be16(buf[p2 + 10], buf[p2 + 11]),
                                    s6: be16(buf[p2 + 12], buf[p2 + 13]),
                                    s7: be16(buf[p2 + 14], buf[p2 + 15]),
                                },
                                ttl,
                            },
                            p2 + 16,
                        ),
                    )
                } else {
                    Err(DnsError::OutOfBounds)
                },
                QueryType::UNKNOWN(x) => if p2 + data_len <= 512 {
                    Ok((RecordV::UNKNOWN { domain, qtype: x, data_len, ttl }, p2 + data_len))
                } else {
                    Err(DnsError::OutOfBounds)
                },
            }
        },
    }
}

/// A record that survives the round trip over the wire: one of the five
/// supported types, with well-formed names.
pub open spec fn record_wf(r: RecordV) -> bool {
    match r {
        RecordV::UNKNOWN { .. } => false,
        RecordV::A { domain, .. } => name_wf(domain),
        RecordV::NS { domain, host, .. } => name_wf(domain) && name_wf(host),
        RecordV::CNAME { domain, host, .. } => name_wf(domain) && name_wf(host),
        RecordV::MX { domain, host, .. } => name_wf(domain) && name_wf(host),
        RecordV::AAAA { domain, .. } => name_wf(domain),
    }
}

/// Every name of the record can be emitted (labels of at most 63).
pub open spec fn record_sendable(r: RecordV) -> bool {
    match r {
        RecordV::UNKNOWN { .. } => true,
        RecordV::A { domain, .. } => name_sendable(domain),
        RecordV::NS { domain, host, .. } => name_sendable(domain) && name_sendable(host),
        RecordV::CNAME { domain, host, .. } => name_sendable(domain) && name_sendable(host),
        RecordV::MX { domain, host, .. } => name_sendable(domain) && name_sendable(host),
        RecordV::AAAA { domain, .. } => name_sendable(domain),
    }
}

/// The record as a decode returns it: names lowercased.
pub open spec fn norm_record(r: RecordV) -> RecordV {
    match r {
        RecordV::UNKNOWN { domain, qtype, data_len, ttl } => RecordV::UNKNOWN {
            domain: lower_seq(domain),
            qtype,
            data_len,
            ttl,
        },
        RecordV::A { domain, addr, ttl } => RecordV::A { domain: lower_seq(domain), addr, ttl },
        RecordV::NS { domain, host, ttl } => RecordV::NS {
            domain: lower_seq(domain),
            host: lower_seq(host),
            ttl,
        },
        RecordV::CNAME { domain, host, ttl } => RecordV::CNAME {
            domain: lower_seq(domain),
            host: lower_seq(host),
            ttl,
        },
        RecordV::MX { domain, priority, host, ttl } => RecordV::MX {
            domain: lower_seq(domain),
            priority,
            host: lower_seq(host),
            ttl,
        },
        RecordV::AAAA { domain, addr, ttl } => RecordV::AAAA {
            domain: lower_seq(domain),
            addr,
            ttl,
        },
    }
}

/// The preamble shared by every emitted record: name, type, class IN,
/// ttl.  What follows is the RDATA length and the payload.
spec fn enc_preamble(domain: Seq<u8>, tnum: u16, ttl: u32) -> Seq<u8> {
    enc_name(domain) + u16_bytes(tnum) + u16_bytes(1u16) + u32_bytes(ttl)
}

impl BytePacketBuffer {
    /// Emit name, type, class IN and ttl: the front of every record.
    #[verifier::rlimit(60)]
    fn write_preamble(&mut self, domain: &Vec<u8>, tnum: u16, ttl: u32) -> (r: Result<
        (),
        DnsError,
    >)
        requires
            old(self).wf(),
        ensures
            final(self).wf(),
            match r {
                Ok(()) => name_sendable(domain@) && old(self).pos + domain@.len() + 10 <= 512
                    && final(self).pos == old(self).pos + domain@.len() + 10 && final(self).buf@
                    == splice(
                    old(self).buf@,
                    old(self).pos as int,
                    enc_preamble(domain@, tnum, ttl),
                ) && enc_preamble(domain@, tnum, ttl).len() == domain@.len() + 10,
                Err(e) => {
                    &&& !(name_sendable(domain@) && old(self).pos + domain@.len() + 10 <= 512)
                    &&& (e == DnsError::LabelTooLong || e == DnsError::OutOfBounds)
                    &&& (e == DnsError::LabelTooLong ==> !name_sendable(domain@))
                    &&& (e == DnsError::OutOfBounds ==> old(self).pos + domain@.len() + 10 > 512)
                },
            },
    {
        let ghost buf0 = old(self).buf@;
        let ghost p0 = old(self).pos as int;
        proof {
            lemma_enc_name_len(domain@);
        }
        match self.write_qname(domain) {
            Ok(()) => {},
            Err(e) => {
                return Err(e);
            },
        }
        match self.write_u16(tnum) {
            Ok(()) => {},
            Err(e) => {
                return Err(e);
            },
        }
        proof {
            lemma_splice_extend(buf0, p0, enc_name(domain@), u16_bytes(tnum));
        }
        match self.write_u16(1) {
            Ok(()) => {},
            Err(e) => {
                return Err(e);
            },
        }
        proof {
            lemma_splice_extend(buf0, p0, enc_name(domain@) + u16_bytes(tnum), u16_bytes(1u16));
        }
        match self.write_u32(ttl) {
            Ok(()) => {},
            Err(e) => {
                return Err(e);
            },
        }
        proof {
            lemma_splice_extend(
                buf0,
                p0,
                enc_name(domain@) + u16_bytes(tnum) + u16_bytes(1u16),
                u32_bytes(ttl),
            );
        }
        Ok(())
    }
}

impl DNSRecord {
    /// Read the record at the cursor.
    #[verifier::rlimit(100)]
    pub fn read(buffer: &mut BytePacketBuffer) -> (r: Result<DNSRecord, DnsError>)
        requires
            old(buffer).wf(),
        ensures
            final(buffer).wf(),
            final(buffer).buf@ == old(buffer).buf@,
            match r {
                Ok(rec) => parse_record(old(buffer).buf@, old(buffer).pos as int) == Ok::<
                    (RecordV, int),
                    DnsError,
                >((rec@, final(buffer).pos as int)),
                Err(e) => parse_record(old(buffer).buf@, old(buffer).pos as int) == Err::<
                    (RecordV, int),
                    DnsError,
                >(e),
            },
    {
        let mut domain: Vec<u8> = Vec::new();
        match buffer.read_qname(&mut domain) {
            Ok(()) => {},
            Err(e) => {
                return Err(e);
            },
        }
        let qtype_num = match buffer.read_u16() {
            Ok(v) => v,
            Err(e) => {
                return Err(e);
            },
        };
        let qtype = QueryType::from_num(qtype_num);
        // the class octets are read and ignored
        match buffer.read_u16() {
            Ok(_) => {},
            Err(e) => {
                return Err(e);
            },
        }
        let ttl = match buffer.read_u32() {
            Ok(v) => v,
            Err(e) => {
                return Err(e);
            },
        };
        let data_len = match buffer.read_u16() {
            Ok(v) => v,
            Err(e) => {
                return Err(e);
            },
        };

        match qtype {
            QueryType::A => {
                let o0 = match buffer.read_u8() {
                    Ok(v) => v,
                    Err(e) => {
                        return Err(e);
                    },
                };
                let o1 = match buffer.read_u8() {
                    Ok(v) => v,
                    Err(e) => {
                        return Err(e);
                    },
                };
                let o2 = match buffer.read_u8() {
                    Ok(v) => v,
                    Err(e) => {
                        return Err(e);
                    },
                };
                let o3 = match buffer.read_u8() {
                    Ok(v) => v,
                    Err(e) => {
                        return Err(e);
                    },
                };
                let addr = Ipv4Addr { o0, o1, o2, o3 };
                Ok(DNSRecord::A { domain, addr, ttl })
            },
            QueryType::NS => {
                let mut host: Vec<u8> = Vec::new();
                match buffer.read_qname(&mut host) {
                    Ok(()) => {},
                    Err(e) => {
                        return Err(e);
                    },
                }
                Ok(DNSRecord::NS { domain, host, ttl })
            },
            QueryType::CNAME => {
                let mut host: Vec<u8> = Vec::new();
                match buffer.read_qname(&mut host) {
                    Ok(()) => {},
                    Err(e) => {
                        return Err(e);
                    },
                }
                Ok(DNSRecord::CNAME { domain, host, ttl })
            },
            QueryType::MX => {
                let priority = match buffer.read_u16() {
                    Ok(v) => v,
                    Err(e) => {
                        return Err(e);
                    },
                };
                let mut host: Vec<u8> = Vec::new();
                match buffer.read_qname(&mut host) {
                    Ok(()) => {},
                    Err(e) => {
                        return Err(e);
                    },
                }
                Ok(DNSRecord::MX { domain, priority, host, ttl })
            },
            QueryType::AAAA => {
                let s0 = match buffer.read_u16() {
                    Ok(v) => v,
                    Err(e) => {
                        return Err(e);
                    },
                };
                let s1 = match buffer.read_u16() {
                    Ok(v) => v,
                    Err(e) => {
                        return Err(e);
                    },
                };
                let s2 = match buffer.read_u16() {
                    Ok(v) => v,
                    Err(e) => {
                        return Err(e);
                    },
                };
                let s3 = match buffer.read_u16() {
                    Ok(v) => v,
                    Err(e) => {
                        return Err(e);
                    },
                };
                let s4 = match buffer.read_u16() {
                    Ok(v) => v,
                    Err(e) => {
                        return Err(e);
                    },
                };
                let s5 = match buffer.read_u16() {
                    Ok(v) => v,
                    Err(e) => {
                        return Err(e);
                    },
                };
                let s6 = match buffer.read_u16() {
                    Ok(v) => v,
                    Err(e) => {
                        return Err(e);
                    },
                };
                let s7 = match buffer.read_u16() {
                    Ok(v) => v,
                    Err(e) => {
                        return Err(e);
                    },
                };
                let addr = Ipv6Addr { s0, s1, s2, s3, s4, s5, s6, s7 };
                Ok(DNSRecord::AAAA { domain, addr, ttl })
            },
            QueryType::UNKNOWN(_) => {
                match buffer.skip(data_len as usize) {
                    Ok(()) => {},
                    Err(e) => {
                        return Err(e);
                    },
                }
                Ok(DNSRecord::UNKNOWN { domain, qtype: qtype_num, data_len, ttl })
            },
        }
    }

    /// Emit the record at the cursor and return how many octets were
    /// written.  The RDATA length of a host payload is back-patched
    /// once the name's size is known.  `UNKNOWN` records are dropped.
    pub fn write(&self, buffer: &mut BytePacketBuffer) -> (r: Result<usize, DnsError>)
        requires
            old(buffer).wf(),
        ensures
            final(buffer).wf(),
            match r {
                Ok(n) => record_sendable(self@) && old(buffer).pos + enc_record(self@).len() <= 512
                    && n == enc_record(self@).len() && final(buffer).pos == old(buffer).pos + n
                    && final(buffer).buf@ == splice(
                    old(buffer).buf@,
                    old(buffer).pos as int,
                    enc_record(self@),
                ),
                Err(e) => {
                    &&& !(record_sendable(self@) && old(buffer).pos + enc_record(self@).len()
                        <= 512)
                    &&& (e == DnsError::LabelTooLong || e == DnsError::OutOfBounds)
                    &&& (e == DnsError::LabelTooLong ==> !record_sendable(self@))
                    &&& (e == DnsError::OutOfBounds ==> old(buffer).pos + enc_record(self@).len()
                        > 512)
                },
            },
    {
        let start_pos = buffer.pos;
        match self {
            DNSRecord::A { domain, addr, ttl } => match write_rec_a(buffer, domain, addr, *ttl) {
                Ok(()) => Ok(buffer.pos - start_pos),
                Err(e) => Err(e),
            },
            DNSRecord::NS { domain, host, ttl } => match write_rec_host(
                buffer,
                domain,
                2,
                host,
                *ttl,
                Ghost(self@),
            ) {
                Ok(()) => Ok(buffer.pos - start_pos),
                Err(e) => Err(e),
            },
            DNSRecord::CNAME { domain, host, ttl } => match write_rec_host(
                buffer,
                domain,
                5,
                host,
                *ttl,
                Ghost(self@),
            ) {
                Ok(()) => Ok(buffer.pos - start_pos),
                Err(e) => Err(e),
            },
            DNSRecord::MX { domain, priority, host, ttl } => match write_rec_mx(
                buffer,
                domain,
                *priority,
                host,
                *ttl,
            ) {
                Ok(()) => Ok(buffer.pos - start_pos),
                Err(e) => Err(e),
            },
            DNSRecord::AAAA { domain, addr, ttl } => match write_rec_aaaa(
                buffer,
                domain,
                addr,
                *ttl,
            ) {
                Ok(()) => Ok(buffer.pos - start_pos),
                Err(e) => Err(e),
            },
            DNSRecord::UNKNOWN { .. } => {
                // never emitted; a decode may produce one, an encode drops it
                proof {
                    assert(splice(old(buffer).buf@, old(buffer).pos as int, Seq::<u8>::empty())
                        =~= old(buffer).buf@);
                }
                Ok(0)
            },
        }
    }
}

/// The shared shape of the per-type emit contracts.
spec fn wrote_record(
    pre: BytePacketBuffer,
    post: BytePacketBuffer,
    rv: RecordV,
    r: Result<(), DnsError>,
) -> bool {
    match r {
        Ok(()) => record_sendable(rv) && pre.pos + enc_record(rv).len() <= 512 && post.pos
            == pre.pos + enc_record(rv).len() && post.buf@ == splice(
            pre.buf@,
            pre.pos as int,
            enc_record(rv),
        ),
        Err(e) => {
            &&& !(record_sendable(rv) && pre.pos + enc_record(rv).len() <= 512)
            &&& (e == DnsError::LabelTooLong || e == DnsError::OutOfBounds)
            &&& (e == DnsError::LabelTooLong ==> !record_sendable(rv))
            &&& (e == DnsError::OutOfBounds ==> pre.pos + enc_record(rv).len() > 512)
        },
    }
}

/// Emit an A record: fixed four-octet RDATA.
#[verifier::rlimit(100)]
fn write_rec_a(buffer: &mut BytePacketBuffer, domain: &Vec<u8>, addr: &Ipv4Addr, ttl: u32) -> (r:
    Result<(), DnsError>)
    requires
        old(buffer).wf(),
    ensures
        final(buffer).wf(),
        wrote_record(
            *old(buffer),
            *final(buffer),
            RecordV::A { domain: domain@, addr: *addr, ttl },
            r,
        ),
{
    let ghost rv = RecordV::A { domain: domain@, addr: *addr, ttl };
    let ghost buf0 = old(buffer).buf@;
    let ghost p0 = old(buffer).pos as int;
    proof {
        lemma_enc_name_len(domain@);
        assert(enc_record(rv).len() == domain@.len() + 16);
    }
    match buffer.write_preamble(domain, 1, ttl) {
        Ok(()) => {},
        Err(e) => {
            return Err(e);
        },
    }
    match buffer.write_u16(4) {
        Ok(()) => {},
        Err(e) => {
            return Err(e);
        },
    }
    proof {
        lemma_splice_extend(buf0, p0, enc_preamble(domain@, 1u16, ttl), u16_bytes(4u16));
    }
    let mut pay: Vec<u8> = Vec::new();
    pay.push(addr.o0);
    pay.push(addr.o1);
    pay.push(addr.o2);
    pay.push(addr.o3);
    match buffer.write_bytes(&pay) {
        Ok(()) => {},
        Err(e) => {
            return Err(e);
        },
    }
    proof {
        lemma_splice_extend(buf0, p0, enc_preamble(domain@, 1u16, ttl) + u16_bytes(4u16), pay@);
        assert(enc_preamble(domain@, 1u16, ttl) + u16_bytes(4u16) + pay@ =~= enc_record(rv));
    }
    Ok(())
}

/// Emit an NS or CNAME record: the RDATA is a name, its length
/// back-patched after the name is written.
#[verifier::rlimit(100)]
fn write_rec_host(
    buffer: &mut BytePacketBuffer,
    domain: &Vec<u8>,
    tnum: u16,
    host: &Vec<u8>,
    ttl: u32,
    Ghost(rv): Ghost<RecordV>,
) -> (r: Result<(), DnsError>)
    requires
        old(buffer).wf(),
        tnum == 2 ==> rv == (RecordV::NS { domain: domain@, host: host@, ttl }),
        tnum == 5 ==> rv == (RecordV::CNAME { domain: domain@, host: host@, ttl }),
        tnum == 2 || tnum == 5,
    ensures
        final(buffer).wf(),
        wrote_record(*old(buffer), *final(buffer), rv, r),
{
    let ghost buf0 = old(buffer).buf@;
    let ghost p0 = old(buffer).pos as int;
    proof {
        lemma_enc_name_len(domain@);
        lemma_enc_name_len(host@);
        assert(enc_record(rv).len() == domain@.len() + host@.len() + 14);
    }
    match buffer.write_preamble(domain, tnum, ttl) {
        Ok(()) => {},
        Err(e) => {
            return Err(e);
        },
    }
    let pos_pl = buffer.pos;
    match buffer.write_u16(0) {
        Ok(()) => {},
        Err(e) => {
            return Err(e);
        },
    }
    proof {
        lemma_splice_extend(buf0, p0, enc_preamble(domain@, tnum, ttl), u16_bytes(0u16));
    }
    match buffer.write_qname(host) {
        Ok(()) => {},
        Err(e) => {
            return Err(e);
        },
    }
    proof {
        lemma_splice_extend(
            buf0,
            p0,
            enc_preamble(domain@, tnum, ttl) + u16_bytes(0u16),
            enc_name(host@),
        );
    }
    let size = buffer.pos - (pos_pl + 2);
    match buffer.set_u16_at(pos_pl, size as u16) {
        Ok(()) => {},
        Err(_) => {
            proof {
                assert(false);
            }
            return Err(DnsError::OutOfBounds);
        },
    }
    proof {
        let w = enc_preamble(domain@, tnum, ttl) + u16_bytes(0u16) + enc_name(host@);
        let i = domain@.len() as int + 10;
        lemma_splice_patch2(buf0, p0, w, i, u16_bytes(size as u16)[0], u16_bytes(size as u16)[1]);
        assert(w.update(i, u16_bytes(size as u16)[0]).update(i + 1, u16_bytes(size as u16)[1])
            =~= enc_record(rv));
    }
    Ok(())
}

/// Emit an MX record: priority, then the exchange name, the RDATA
/// length back-patched.
#[verifier::rlimit(100)]
fn write_rec_mx(
    buffer: &mut BytePacketBuffer,
    domain: &Vec<u8>,
    priority: u16,
    host: &Vec<u8>,
    ttl: u32,
) -> (r: Result<(), DnsError>)
    requires
        old(buffer).wf(),
    ensures
        final(buffer).wf(),
        wrote_record(
            *old(buffer),
            *final(buffer),
            RecordV::MX { domain: domain@, priority, host: host@, ttl },
            r,
        ),
{
    let ghost rv = RecordV::MX { domain: domain@, priority, host: host@, ttl };
    let ghost buf0 = old(buffer).buf@;
    let ghost p0 = old(buffer).pos as int;
    proof {
        lemma_enc_name_len(domain@);
        lemma_enc_name_len(host@);
        assert(enc_record(rv).len() == domain@.len() + host@.len() + 16);
    }
    match buffer.write_preamble(domain, 15, ttl) {
        Ok(()) => {},
        Err(e) => {
            return Err(e);
        },
    }
    let pos_pl = buffer.pos;
    match buffer.write_u16(0) {
        Ok(()) => {},
        Err(e) => {
            return Err(e);
        },
    }
    proof {
        lemma_splice_extend(buf0, p0, enc_preamble(domain@, 15u16, ttl), u16_bytes(0u16));
    }
    match buffer.write_u16(priority) {
        Ok(()) => {},
        Err(e) => {
            return Err(e);
        },
    }
    proof {
        lemma_splice_extend(
            buf0,
            p0,
            enc_preamble(domain@, 15u16, ttl) + u16_bytes(0u16),
            u16_bytes(priority),
        );
    }
    match buffer.write_qname(host) {
        Ok(()) => {},
        Err(e) => {
            return Err(e);
        },
    }
    proof {
        lemma_splice_extend(
            buf0,
            p0,
            enc_preamble(domain@, 15u16, ttl) + u16_bytes(0u16) + u16_bytes(priority),
            enc_name(host@),
        );
    }
    let size = buffer.pos - (pos_pl + 2);
    match buffer.set_u16_at(pos_pl, size as u16) {
        Ok(()) => {},
        Err(_) => {
            proof {
                assert(false);
            }
            return Err(DnsError::OutOfBounds);
        },
    }
    proof {
        let w = enc_preamble(domain@, 15u16, ttl) + u16_bytes(0u16) + u16_bytes(priority)
            + enc_name(host@);
        let i = domain@.len() as int + 10;
        lemma_splice_patch2(buf0, p0, w, i, u16_bytes(size as u16)[0], u16_bytes(size as u16)[1]);
        assert(w.update(i, u16_bytes(size as u16)[0]).update(i + 1, u16_bytes(size as u16)[1])
            =~= enc_record(rv));
    }
    Ok(())
}

/// Emit an AAAA record: fixed sixteen-octet RDATA.
#[verifier::rlimit(100)]
fn write_rec_aaaa(buffer: &mut BytePacketBuffer, domain: &Vec<u8>, addr: &Ipv6Addr, ttl: u32) -> (r:
    Result<(), DnsError>)
    requires
        old(buffer).wf(),
    ensures
        final(buffer).wf(),
        wrote_record(
            *old(buffer),
            *final(buffer),
            RecordV::AAAA { domain: domain@, addr: *addr, ttl },
            r,
        ),
{
    let ghost rv = RecordV::AAAA { domain: domain@, addr: *addr, ttl };
    let ghost buf0 = old(buffer).buf@;
    let ghost p0 = old(buffer).pos as int;
    proof {
        lemma_enc_name_len(domain@);
        assert(enc_record(rv).len() == domain@.len() + 28);
    }
    match buffer.write_preamble(domain, 28, ttl) {
        Ok(()) => {},
        Err(e) => {
            return Err(e);
        },
    }
    match buffer.write_u16(16) {
        Ok(()) => {},
        Err(e) => {
            return Err(e);
        },
    }
    proof {
        lemma_splice_extend(buf0, p0, enc_preamble(domain@, 28u16, ttl), u16_bytes(16u16));
    }
    let mut pay: Vec<u8> = Vec::new();
    pay.push((addr.s0 / 256) as u8);
    pay.push((addr.s0 % 256) as u8);
    pay.push((addr.s1 / 256) as u8);
    pay.push((addr.s1 % 256) as u8);
    pay.push((addr.s2 / 256) as u8);
    pay.push((addr.s2 % 256) as u8);
    pay.push((addr.s3 / 256) as u8);
    pay.push((addr.s3 % 256) as u8);
    pay.push((addr.s4 / 256) as u8);
    pay.push((addr.s4 % 256) as u8);
    pay.push((addr.s5 / 256) as u8);
    pay.push((addr.s5 % 256) as u8);
    pay.push((addr.s6 / 256) as u8);
    pay.push((addr.s6 % 256) as u8);
    pay.push((addr.s7 / 256) as u8);
    pay.push((addr.s7 % 256) as u8);
    match buffer.write_bytes(&pay) {
        Ok(()) => {},
        Err(e) => {
            return Err(e);
        },
    }
    proof {
        lemma_splice_extend(buf0, p0, enc_preamble(domain@, 28u16, ttl) + u16_bytes(16u16), pay@);
        assert(enc_preamble(domain@, 28u16, ttl) + u16_bytes(16u16) + pay@ =~= enc_record(rv));
    }
    Ok(())
}

/// The domain name at the front of an encoded record reads back as
/// itself, lowercased, leaving the cursor right after it.
proof fn lemma_record_front(buf: Seq<u8>, p: int, rv: RecordV, domain: Seq<u8>)
    requires
        buf.len() == 512,
        0 <= p,
        p + enc_record(rv).len() <= 512,
        buf.subrange(p, p + enc_record(rv).len()) == enc_record(rv),
        name_wf(domain),
        domain.len() + 2 <= enc_record(rv).len(),
        forall|k: int|
            0 <= k < domain.len() + 2 ==> enc_record(rv)[k] == #[trigger] enc_name(domain)[k],
    ensures
        spec_read_qname(buf, p) == Ok::<(Seq<u8>, int), DnsError>(
            (lower_seq(domain), p + domain.len() + 2),
        ),
{
    let e = enc_record(rv);
    let dl = domain.len() as int + 2;
    lemma_enc_name_len(domain);
    assert(buf.subrange(p, p + dl) =~= enc_name(domain)) by {
        assert forall|k: int| 0 <= k < dl implies buf.subrange(p, p + dl)[k] == enc_name(
            domain,
        )[k] by {
            assert(buf.subrange(p, p + dl)[k] == buf[p + k]);
            assert(buf.subrange(p, p + e.len())[k] == buf[p + k]);
            assert(e[k] == enc_name(domain)[k]);
        }
    }
    lemma_read_encoded_name(buf, p, domain);
}

/// The host name at offset `off` of an encoded record reads back as
/// itself, lowercased.
proof fn lemma_record_host(buf: Seq<u8>, p: int, rv: RecordV, off: int, host: Seq<u8>)
    requires
        buf.len() == 512,
        0 <= p,
        p + enc_record(rv).len() <= 512,
        buf.subrange(p, p + enc_record(rv).len()) == enc_record(rv),
        name_wf(host),
        0 <= off,
        off + host.len() + 2 == enc_record(rv).len(),
        forall|k: int|
            0 <= k < host.len() + 2 ==> enc_record(rv)[off + k] == #[trigger] enc_name(host)[k],
    ensures
        spec_read_qname(buf, p + off) == Ok::<(Seq<u8>, int), DnsError>(
            (lower_seq(host), p + off + host.len() + 2),
        ),
{
    let e = enc_record(rv);
    let hl = host.len() as int + 2;
    lemma_enc_name_len(host);
    assert(buf.subrange(p + off, p + off + hl) =~= enc_name(host)) by {
        assert forall|k: int| 0 <= k < hl implies buf.subrange(p + off, p + off + hl)[k]
            == enc_name(host)[k] by {
            assert(buf.subrange(p + off, p + off + hl)[k] == buf[p + off + k]);
            assert(buf.subrange(p, p + e.len())[off + k] == buf[p + off + k]);
            assert(e[off + k] == enc_name(host)[k]);
        }
    }
    lemma_read_encoded_name(buf, p + off, host);
}

/// Reading back one encoded record variant.
#[verifier::rlimit(100)]
proof fn lemma_parse_enc_record_a(buf: Seq<u8>, p: int, rv: RecordV)
    requires
        buf.len() == 512,
        record_wf(rv),
        rv is A,
        0 <= p,
        p + enc_record(rv).len() <= 512,
        buf.subrange(p, p + enc_record(rv).len()) == enc_record(rv),
    ensures
        parse_record(buf, p) == Ok::<(RecordV, int), DnsError>(
            (norm_record(rv), p + enc_record(rv).len()),
        ),
{
    let e = enc_record(rv);
    match rv {
        RecordV::A { domain, addr, ttl } => {
            lemma_enc_name_len(domain);
            let dl = domain.len() as int + 2;
            assert(e.len() == dl + 14);
            lemma_record_front(buf, p, rv, domain);
            assert(e[dl] == u16_bytes(1u16)[0]);
            assert(e[dl + 1] == u16_bytes(1u16)[1]);
            lemma_region_be16(buf, p, e, dl, 1u16);
            assert(e[dl + 4] == u32_bytes(ttl)[0]);
            assert(e[dl + 5] == u32_bytes(ttl)[1]);
            assert(e[dl + 6] == u32_bytes(ttl)[2]);
            assert(e[dl + 7] == u32_bytes(ttl)[3]);
            lemma_region_be32(buf, p, e, dl + 4, ttl);
            let p2 = p + dl + 10;
            assert(buf.subrange(p, p + e.len())[dl + 10] == buf[p2]);
            assert(buf.subrange(p, p + e.len())[dl + 11] == buf[p2 + 1]);
            assert(buf.subrange(p, p + e.len())[dl + 12] == buf[p2 + 2]);
            assert(buf.subrange(p, p + e.len())[dl + 13] == buf[p2 + 3]);
            assert(buf[p2] == addr.o0);
            assert(buf[p2 + 1] == addr.o1);
            assert(buf[p2 + 2] == addr.o2);
            assert(buf[p2 + 3] == addr.o3);
        },
        _ => {
            assert(false);
        },
    }
}

#[verifier::rlimit(100)]
proof fn lemma_parse_enc_record_ns(buf: Seq<u8>, p: int, rv: RecordV)
    requires
        buf.len() == 512,
        record_wf(rv),
        rv is NS,
        0 <= p,
        p + enc_record(rv).len() <= 512,
        buf.subrange(p, p + enc_record(rv).len()) == enc_record(rv),
    ensures
        parse_record(buf, p) == Ok::<(RecordV, int), DnsError>(
            (norm_record(rv), p + enc_record(rv).len()),
        ),
{
    let e = enc_record(rv);
    match rv {
        RecordV::NS { domain, host, ttl } => {
            lemma_enc_name_len(domain);
            lemma_enc_name_len(host);
            let dl = domain.len() as int + 2;
            let hl = host.len() as int + 2;
            assert(e.len() == dl + 10 + hl);
            lemma_record_front(buf, p, rv, domain);
            assert(e[dl] == u16_bytes(2u16)[0]);
            assert(e[dl + 1] == u16_bytes(2u16)[1]);
            lemma_region_be16(buf, p, e, dl, 2u16);
            assert(e[dl + 4] == u32_bytes(ttl)[0]);
            assert(e[dl + 5] == u32_bytes(ttl)[1]);
            assert(e[dl + 6] == u32_bytes(ttl)[2]);
            assert(e[dl + 7] == u32_bytes(ttl)[3]);
            lemma_region_be32(buf, p, e, dl + 4, ttl);
            lemma_record_host(buf, p, rv, dl + 10, host);
        },
        _ => {
            assert(false);
        },
    }
}

#[verifier::rlimit(100)]
proof fn lemma_parse_enc_record_cname(buf: Seq<u8>, p: int, rv: RecordV)
    requires
        buf.len() == 512,
        record_wf(rv),
        rv is CNAME,
        0 <= p,
        p + enc_record(rv).len() <= 512,
        buf.subrange(p, p + enc_record(rv).len()) == enc_record(rv),
    ensures
        parse_record(buf, p) == Ok::<(RecordV, int), DnsError>(
            (norm_record(rv), p + enc_record(rv).len()),
        ),
{
    let e = enc_record(rv);
    match rv {
        RecordV::CNAME { domain, host, ttl } => {
            lemma_enc_name_len(domain);
            lemma_enc_name_len(host);
            let dl = domain.len() as int + 2;
            let hl = host.len() as int + 2;
            assert(e.len() == dl + 10 + hl);
            lemma_record_front(buf, p, rv, domain);
            assert(e[dl] == u16_bytes(5u16)[0]);
            assert(e[dl + 1] == u16_bytes(5u16)[1]);
            lemma_region_be16(buf, p, e, dl, 5u16);
            assert(e[dl + 4] == u32_bytes(ttl)[0]);
            assert(e[dl + 5] == u32_bytes(ttl)[1]);
            assert(e[dl + 6] == u32_bytes(ttl)[2]);
            assert(e[dl + 7] == u32_bytes(ttl)[3]);
            lemma_region_be32(buf, p, e, dl + 4, ttl);
            lemma_record_host(buf, p, rv, dl + 10, host);
        },
        _ => {
            assert(false);
        },
    }
}

#[verifier::rlimit(100)]
proof fn lemma_parse_enc_record_mx(buf: Seq<u8>, p: int, rv: RecordV)
    requires
        buf.len() == 512,
        record_wf(rv),
        rv is MX,
        0 <= p,
        p + enc_record(rv).len() <= 512,
        buf.subrange(p, p + enc_record(rv).len()) == enc_record(rv),
    ensures
        parse_record(buf, p) == Ok::<(RecordV, int), DnsError>(
            (norm_record(rv), p + enc_record(rv).len()),
        ),
{
    let e = enc_record(rv);
    match rv {
        RecordV::MX { domain, priority, host, ttl } => {
            lemma_enc_name_len(domain);
            lemma_enc_name_len(host);
            let dl = domain.len() as int + 2;
            let hl = host.len() as int + 2;
            assert(e.len() == dl + 12 + hl);
            lemma_record_front(buf, p, rv, domain);
            assert(e[dl] == u16_bytes(15u16)[0]);
            assert(e[dl + 1] == u16_bytes(15u16)[1]);
            lemma_region_be16(buf, p, e, dl, 15u16);
            assert(e[dl + 4] == u32_bytes(ttl)[0]);
            assert(e[dl + 5] == u32_bytes(ttl)[1]);
            assert(e[dl + 6] == u32_bytes(ttl)[2]);
            assert(e[dl + 7] == u32_bytes(ttl)[3]);
            lemma_region_be32(buf, p, e, dl + 4, ttl);
            assert(e[dl + 10] == u16_bytes(priority)[0]);
            assert(e[dl + 11] == u16_bytes(priority)[1]);
            lemma_region_be16(buf, p, e, dl + 10, priority);
            lemma_record_host(buf, p, rv, dl + 12, host);
        },
        _ => {
            assert(false);
        },
    }
}

#[verifier::rlimit(100)]
proof fn lemma_parse_enc_record_aaaa(buf: Seq<u8>, p: int, rv: RecordV)
    requires
        buf.len() == 512,
        record_wf(rv),
        rv is AAAA,
        0 <= p,
        p + enc_record(rv).len() <= 512,
        buf.subrange(p, p + enc_record(rv).len()) == enc_record(rv),
    ensures
        parse_record(buf, p) == Ok::<(RecordV, int), DnsError>(
            (norm_record(rv), p + enc_record(rv).len()),
        ),
{
    let e = enc_record(rv);
    match rv {
        RecordV::AAAA { domain, addr, ttl } => {
            lemma_enc_name_len(domain);
            let dl = domain.len() as int + 2;
            assert(e.len() == dl + 26);
            lemma_record_front(buf, p, rv, domain);
            assert(e[dl] == u16_bytes(28u16)[0]);
            assert(e[dl + 1] == u16_bytes(28u16)[1]);
            lemma_region_be16(buf, p, e, dl, 28u16);
            assert(e[dl + 4] == u32_bytes(ttl)[0]);
            assert(e[dl + 5] == u32_bytes(ttl)[1]);
            assert(e[dl + 6] == u32_bytes(ttl)[2]);
            assert(e[dl + 7] == u32_bytes(ttl)[3]);
            lemma_region_be32(buf, p, e, dl + 4, ttl);
            assert(e[dl + 10] == u16_bytes(addr.s0)[0]);
            assert(e[dl + 11] == u16_bytes(addr.s0)[1]);
            lemma_region_be16(buf, p, e, dl + 10, addr.s0);
            assert(e[dl + 12] == u16_bytes(addr.s1)[0]);
            assert(e[dl + 13] == u16_bytes(addr.s1)[1]);
            lemma_region_be16(buf, p, e, dl + 12, addr.s1);
            assert(e[dl + 14] == u16_bytes(addr.s2)[0]);
            assert(e[dl + 15] == u16_bytes(addr.s2)[1]);
            lemma_region_be16(buf, p, e, dl + 14, addr.s2);
            assert(e[dl + 16] == u16_bytes(addr.s3)[0]);
            assert(e[dl + 17] == u16_bytes(addr.s3)[1]);
            lemma_region_be16(buf, p, e, dl + 16, addr.s3);
            assert(e[dl + 18] == u16_bytes(addr.s4)[0]);
            assert(e[dl + 19] == u16_bytes(addr.s4)[1]);
            lemma_region_be16(buf, p, e, dl + 18, addr.s4);
            assert(e[dl + 20] == u16_bytes(addr.s5)[0]);
            assert(e[dl + 21] == u16_bytes(addr.s5)[1]);
            lemma_region_be16(buf, p, e, dl + 20, addr.s5);
            assert(e[dl + 22] == u16_bytes(addr.s6)[0]);
            assert(e[dl + 23] == u16_bytes(addr.s6)[1]);
            lemma_region_be16(buf, p, e, dl + 22, addr.s6);
            assert(e[dl + 24] == u16_bytes(addr.s7)[0]);
            assert(e[dl + 25] == u16_bytes(addr.s7)[1]);
            lemma_region_be16(buf, p, e, dl + 24, addr.s7);
        },
        _ => {
            assert(false);
        },
    }
}

/// Reading back an encoded record: where the buffer holds
/// `enc_record(r)` at `p` for one of the five supported types, parsing
/// returns the record with its names lowercased.
pub proof fn lemma_parse_enc_record(buf: Seq<u8>, p: int, rv: RecordV)
    requires
        buf.len() == 512,
        record_wf(rv),
        0 <= p,
        p + enc_record(rv).len() <= 512,
        buf.subrange(p, p + enc_record(rv).len()) == enc_record(rv),
    ensures
        parse_record(buf, p) == Ok::<(RecordV, int), DnsError>(
            (norm_record(rv), p + enc_record(rv).len()),
        ),
{
    match rv {
        RecordV::UNKNOWN { .. } => {
            assert(false);
        },
        RecordV::A { .. } => {
            lemma_parse_enc_record_a(buf, p, rv);
        },
        RecordV::NS { .. } => {
            lemma_parse_enc_record_ns(buf, p, rv);
        },
        RecordV::CNAME { .. } => {
            lemma_parse_enc_record_cname(buf, p, rv);
        },
        RecordV::MX { .. } => {
            lemma_parse_enc_record_mx(buf, p, rv);
        },
        RecordV::AAAA { .. } => {
            lemma_parse_enc_record_aaaa(buf, p, rv);
        },
    }
}

} // verus!
