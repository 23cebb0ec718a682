//! The iterative resolver's decision logic.
//!
//! The resolver walks delegations from a root nameserver.  Everything
//! that decides is here and verified: picking a glued NS from a
//! response, picking an unglued one, picking an answer address, and
//! the step taken for each response.  The driver owns the sockets: it
//! sends the query each step asks for and feeds the response back.

use vstd::prelude::*;

use crate::name::is_label_suffix;
use crate::name::lower_seq;
use crate::name::lower_byte;
use crate::buffer::lower_byte_x;
use crate::packet::DNSPacket;
use crate::packet::PacketV;
use crate::question::DNSQuestion;
use crate::question::QuestionV;
use crate::record::DNSRecord;
use crate::record::RecordV;
use crate::types::Ipv4Addr;
use crate::types::QueryType;
use crate::types::ResultCode;

verus! {

/// The first A record among `adds` whose domain is `host`, case
/// folded; the glue search of the delegation walk.
pub open spec fn first_a_for(adds: Seq<RecordV>, host: Seq<u8>) -> Option<Ipv4Addr>
    decreases adds.len(),
{
    if adds.len() == 0 {
        Option::None
    } else {
        match adds[0] {
            RecordV::A { domain, addr, .. } => if lower_seq(domain) == lower_seq(host) {
                Option::Some(addr)
            } else {
                first_a_for(adds.drop_first(), host)
            },
            _ => first_a_for(adds.drop_first(), host),
        }
    }
}

/// An NS record whose domain is a label-aligned suffix of `qname`.
pub open spec fn is_matching_ns(r: RecordV, qname: Seq<u8>) -> bool {
    match r {
        RecordV::NS { domain, .. } => is_label_suffix(domain, qname),
        _ => false,
    }
}

/// The first glued delegation: walking `auths` in on-wire order, the
/// address of the first matching NS whose host has an A among `adds`.
pub open spec fn glued_ns(auths: Seq<RecordV>, adds: Seq<RecordV>, qname: Seq<u8>) -> Option<
    Ipv4Addr,
>
    decreases auths.len(),
{
    if auths.len() == 0 {
        Option::None
    } else {
        match auths[0] {
            RecordV::NS { domain, host, .. } => if is_label_suffix(domain, qname) && first_a_for(
                adds,
                host,
            ) is Some {
                first_a_for(adds, host)
            } else {
                glued_ns(auths.drop_first(), adds, qname)
            },
            _ => glued_ns(auths.drop_first(), adds, qname),
        }
    }
}

/// The first unglued delegation: the host of the first matching NS
/// that has no A among `adds`.
pub open spec fn unglued_ns(auths: Seq<RecordV>, adds: Seq<RecordV>, qname: Seq<u8>) -> Option<
    Seq<u8>,
>
    decreases auths.len(),
{
    if auths.len() == 0 {
        Option::None
    } else {
        match auths[0] {
            RecordV::NS { domain, host, .. } => if is_label_suffix(domain, qname) && first_a_for(
                adds,
                host,
            ) is None {
                Option::Some(host)
            } else {
                unglued_ns(auths.drop_first(), adds, qname)
            },
            _ => unglued_ns(auths.drop_first(), adds, qname),
        }
    }
}

/// The first A record of the answer section.
pub open spec fn first_answer_a(answers: Seq<RecordV>) -> Option<Ipv4Addr>
    decreases answers.len(),
{
    if answers.len() == 0 {
        Option::None
    } else {
        match answers[0] {
            RecordV::A { addr, .. } => Option::Some(addr),
            _ => first_answer_a(answers.drop_first()),
        }
    }
}

/// What one resolution step decides for a response to `qname`.
pub ghost enum StepV {
    /// The response answers the question: return it.
    Answered,
    /// The name does not exist: return the response at once.
    Nxdomain,
    /// A glued delegation: ask this address next.
    Glued(Ipv4Addr),
    /// An unglued delegation: resolve this host's address first.
    Unglued(Seq<u8>),
    /// Nothing to follow: return the response as the best effort.
    GiveUp,
}

/// The decision for a response, in the fixed order: answers first,
/// NXDOMAIN next, then glue, then an unglued delegation.
pub open spec fn step_of(resp: PacketV, qname: Seq<u8>) -> StepV {
    if resp.answers.len() > 0 && resp.header.rescode is NOERROR {
        StepV::Answered
    } else if resp.header.rescode is NXDOMAIN {
        StepV::Nxdomain
    } else if glued_ns(resp.authorities, resp.resources, qname) is Some {
        StepV::Glued(glued_ns(resp.authorities, resp.resources, qname)->0)
    } else if unglued_ns(resp.authorities, resp.resources, qname) is Some {
        StepV::Unglued(unglued_ns(resp.authorities, resp.resources, qname)->0)
    } else {
        StepV::GiveUp
    }
}

/// One resolution step, as executable data.
#[derive(Debug, Clone, PartialEq, Eq)]
pub enum Step {
    Answered,
    Nxdomain,
    Glued(Ipv4Addr),
    Unglued(Vec<u8>),
    GiveUp,
}

impl View for Step {
    type V = StepV;

    open spec fn view(&self) -> StepV {
        match self {
            Step::Answered => StepV::Answered,
            Step::Nxdomain => StepV::Nxdomain,
            Step::Glued(a) => StepV::Glued(*a),
            Step::Unglued(h) => StepV::Unglued(h@),
            Step::GiveUp => StepV::GiveUp,
        }
    }
}

/// The root nameserver the walk starts from unless configured
/// otherwise: 198.41.0.4, a.root-servers.net.
pub fn default_root() -> (r: Ipv4Addr)
    ensures
        r == (Ipv4Addr { o0: 198u8, o1: 41u8, o2: 0u8, o3: 4u8 }),
{
    Ipv4Addr { o0: 198, o1: 41, o2: 0, o3: 4 }
}

/// A fresh copy of a byte string.
fn to_owned_bytes(src: &Vec<u8>) -> (r: Vec<u8>)
    ensures
        r@ == src@,
{
    let mut r: Vec<u8> = Vec::new();
    let n = src.len();
    let mut i: usize = 0;
    while i < n
        invariant
            i <= n,
            n == src@.len(),
            r@ == src@.subrange(0, i as int),
        decreases n - i,
    {
        r.push(src[i]);
        proof {
            assert(r@ =~= src@.subrange(0, i + 1 as int));
        }
        i = i + 1;
    }
    proof {
        assert(src@.subrange(0, n as int) =~= src@);
    }
    r
}

/// Case-folded equality of two names.
fn names_eq_folded(a: &Vec<u8>, b: &Vec<u8>) -> (r: bool)
    ensures
        r == (lower_seq(a@) == lower_seq(b@)),
{
    if a.len() != b.len() {
        proof {
            assert(lower_seq(a@).len() != lower_seq(b@).len());
        }
        return false;
    }
    let n = a.len();
    let mut i: usize = 0;
    while i < n
        invariant
            i <= n,
            n == a@.len(),
            n == b@.len(),
            forall|k: int| 0 <= k < i ==> lower_byte(a@[k]) == lower_byte(b@[k]),
        decreases n - i,
    {
        if lower_byte_x(a[i]) != lower_byte_x(b[i]) {
            proof {
                assert(lower_seq(a@)[i as int] != lower_seq(b@)[i as int]);
            }
            return false;
        }
        i = i + 1;
    }
    proof {
        assert(lower_seq(a@) =~= lower_seq(b@));
    }
    true
}

/// Whether `domain` is a label-aligned, case-insensitive suffix of
/// `qname`: the whole name, or a suffix that starts right after a dot.
fn is_label_suffix_x(domain: &Vec<u8>, qname: &Vec<u8>) -> (r: bool)
    ensures
        r == is_label_suffix(domain@, qname@),
{
    let dl = domain.len();
    let ql = qname.len();
    if dl == ql {
        let r = names_eq_folded(domain, qname);
        proof {
            if !r {
                assert(!(lower_seq(domain@) == lower_seq(qname@)));
                // a dotted suffix would need one more octet than qname has
                assert(!(dl + 1 <= ql));
            }
        }
        return r;
    }
    if dl > ql {
        proof {
            assert(lower_seq(domain@).len() != lower_seq(qname@).len());
        }
        return false;
    }
    let off = ql - dl;
    if qname[off - 1] != 46 {
        proof {
            let tail = seq![46u8] + lower_seq(domain@);
            if is_label_suffix(domain@, qname@) {
                assert(lower_seq(qname@).subrange(ql - dl - 1, ql as int) == tail);
                assert(lower_seq(qname@).subrange(ql - dl - 1, ql as int)[0] == lower_byte(
                    qname@[off - 1],
                ));
                assert(lower_byte(qname@[off - 1]) == 46u8);
                assert(qname@[off - 1] == 46u8);
                assert(false);
            }
        }
        return false;
    }
    let n = dl;
    let mut i: usize = 0;
    while i < n
        invariant
            i <= n,
            n == dl,
            dl == domain@.len(),
            ql == qname@.len(),
            off == ql - dl,
            dl + 1 <= ql,
            qname@[off - 1] == 46u8,
            forall|k: int| 0 <= k < i ==> lower_byte(qname@[off + k]) == lower_byte(domain@[k]),
        decreases n - i,
    {
        if lower_byte_x(qname[off + i]) != lower_byte_x(domain[i]) {
            proof {
                let tail = seq![46u8] + lower_seq(domain@);
                if is_label_suffix(domain@, qname@) {
                    assert(lower_seq(domain@).len() == lower_seq(qname@).len() || lower_seq(
                        qname@,
                    ).subrange(ql - dl - 1, ql as int) == tail);
                    assert(lower_seq(qname@).subrange(ql - dl - 1, ql as int)[i + 1] == lower_byte(
                        qname@[off + i],
                    ));
                    assert(tail[i + 1] == lower_byte(domain@[i as int]));
                    assert(false);
                }
            }
            return false;
        }
        i = i + 1;
    }
    proof {
        let tail = seq![46u8] + lower_seq(domain@);
        assert(lower_seq(qname@).subrange(ql - dl - 1, ql as int) =~= tail);
    }
    true
}

impl DNSPacket {
    /// The first matching A record of the additional section for
    /// `host`: its glue, if the response carried any.
    fn first_additional_a(&self, host: &Vec<u8>) -> (r: Option<Ipv4Addr>)
        ensures
            r == first_a_for(self@.resources, host@),
    {
        let ghost adds = self@.resources;
        let n = self.resources.len();
        let mut i: usize = 0;
        proof {
            assert(adds.skip(0) =~= adds);
        }
        #[verifier::loop_isolation(false)]
        while i < n
            invariant
                i <= n,
                first_a_for(adds.skip(i as int), host@) == first_a_for(adds, host@),
            decreases n - i,
        {
            proof {
                assert(adds.skip(i as int)[0] == adds[i as int]);
                assert(adds.skip(i as int).drop_first() =~= adds.skip(i + 1 as int));
            }
            match &self.resources[i] {
                DNSRecord::A { domain, addr, .. } => {
                    if names_eq_folded(domain, host) {
                        return Some(*addr);
                    }
                },
                _ => {},
            }
            i = i + 1;
        }
        proof {
            assert(adds.skip(n as int) =~= Seq::<RecordV>::empty());
        }
        None
    }

    /// The first glued delegation for `qname`: walking the authority
    /// section in on-wire order, the address of the first matching NS
    /// whose host has an A record in the additional section.
    pub fn get_resolved_ns(&self, qname: &Vec<u8>) -> (r: Option<Ipv4Addr>)
        ensures
            r == glued_ns(self@.authorities, self@.resources, qname@),
    {
        let ghost auths = self@.authorities;
        let n = self.authorities.len();
        let mut i: usize = 0;
        proof {
            assert(auths.skip(0) =~= auths);
        }
        #[verifier::loop_isolation(false)]
        while i < n
            invariant
                i <= n,
                glued_ns(auths.skip(i as int), self@.resources, qname@) == glued_ns(
                    auths,
                    self@.resources,
                    qname@,
                ),
            decreases n - i,
        {
            proof {
                assert(auths.skip(i as int)[0] == auths[i as int]);
                assert(auths.skip(i as int).drop_first() =~= auths.skip(i + 1 as int));
            }
            match &self.authorities[i] {
                DNSRecord::NS { domain, host, .. } => {
                    if is_label_suffix_x(domain, qname) {
                        match self.first_additional_a(host) {
                            Some(a) => {
                                return Some(a);
                            },
                            None => {},
                        }
                    }
                },
                _ => {},
            }
            i = i + 1;
        }
        proof {
            assert(auths.skip(n as int) =~= Seq::<RecordV>::empty());
        }
        None
    }

    /// The first unglued delegation for `qname`: the host of the first
    /// matching NS without an additional A record.
    pub fn get_unresolved_ns(&self, qname: &Vec<u8>) -> (r: Option<Vec<u8>>)
        ensures
            match r {
                Option::Some(h) => unglued_ns(self@.authorities, self@.resources, qname@)
                    == Option::Some(h@),
                Option::None => unglued_ns(self@.authorities, self@.resources, qname@) is None,
            },
    {
        let ghost auths = self@.authorities;
        let n = self.authorities.len();
        let mut i: usize = 0;
        proof {
            assert(auths.skip(0) =~= auths);
        }
        #[verifier::loop_isolation(false)]
        while i < n
            invariant
                i <= n,
                unglued_ns(auths.skip(i as int), self@.resources, qname@) == unglued_ns(
                    auths,
                    self@.resources,
                    qname@,
                ),
            decreases n - i,
        {
            proof {
                assert(auths.skip(i as int)[0] == auths[i as int]);
                assert(auths.skip(i as int).drop_first() =~= auths.skip(i + 1 as int));
            }
            match &self.authorities[i] {
                DNSRecord::NS { domain, host, .. } => {
                    if is_label_suffix_x(domain, qname) {
                        match self.first_additional_a(host) {
                            Some(_) => {},
                            None => {
                                return Some(to_owned_bytes(host));
                            },
                        }
                    }
                },
                _ => {},
            }
            i = i + 1;
        }
        proof {
            assert(auths.skip(n as int) =~= Seq::<RecordV>::empty());
        }
        None
    }

    /// The first A record of the answer section; which record that is
    /// lies with the server that ordered the answers.
    pub fn get_random_a(&self) -> (r: Option<Ipv4Addr>)
        ensures
            r == first_answer_a(self@.answers),
    {
        let ghost answers = self@.answers;
        let n = self.answers.len();
        let mut i: usize = 0;
        proof {
            assert(answers.skip(0) =~= answers);
        }
        #[verifier::loop_isolation(false)]
        while i < n
            invariant
                i <= n,
                first_answer_a(answers.skip(i as int)) == first_answer_a(answers),
            decreases n - i,
        {
            proof {
                assert(answers.skip(i as int)[0] == answers[i as int]);
                assert(answers.skip(i as int).drop_first() =~= answers.skip(i + 1 as int));
            }
            match &self.answers[i] {
                DNSRecord::A { addr, .. } => {
                    return Some(*addr);
                },
                _ => {},
            }
            i = i + 1;
        }
        proof {
            assert(answers.skip(n as int) =~= Seq::<RecordV>::empty());
        }
        None
    }
}

/// The decision the resolver takes for `response` while resolving
/// `qname`: answers and NXDOMAIN end the walk, a glued delegation
/// names the next server, an unglued one asks for a sub-resolution,
/// and anything else returns the response as the best effort.
pub fn resolve_step(response: &DNSPacket, qname: &Vec<u8>) -> (r: Step)
    ensures
        r@ == step_of(response@, qname@),
{
    if response.answers.len() > 0 && response.header.rescode == ResultCode::NOERROR {
        return Step::Answered;
    }
    if response.header.rescode == ResultCode::NXDOMAIN {
        return Step::Nxdomain;
    }
    match response.get_resolved_ns(qname) {
        Some(a) => {
            return Step::Glued(a);
        },
        None => {},
    }
    match response.get_unresolved_ns(qname) {
        Some(h) => {
            return Step::Unglued(h);
        },
        None => {},
    }
    Step::GiveUp
}

/// Glued delegations stay `None` while no authority is a matching NS.
proof fn lemma_glued_none(auths: Seq<RecordV>, adds: Seq<RecordV>, qname: Seq<u8>)
    requires
        forall|k: int| 0 <= k < auths.len() ==> !is_matching_ns(#[trigger] auths[k], qname),
    ensures
        glued_ns(auths, adds, qname) is None,
        unglued_ns(auths, adds, qname) is None,
    decreases auths.len(),
{
    if auths.len() > 0 {
        assert(!is_matching_ns(auths[0], qname));
        assert(forall|k: int|
            0 <= k < auths.drop_first().len() ==> !is_matching_ns(
                #[trigger] auths.drop_first()[k],
                qname,
            ));
        lemma_glued_none(auths.drop_first(), adds, qname);
    }
}

/// Resolution terminates on a dead end: a response with no answers
/// and no NS authority matching `qname` is returned as it stands —
/// the step is never a further query.
pub proof fn lemma_dead_end_returns(resp: PacketV, qname: Seq<u8>)
    requires
        resp.answers.len() == 0,
        forall|k: int| 0 <= k < resp.authorities.len() ==> !is_matching_ns(
            #[trigger] resp.authorities[k],
            qname,
        ),
    ensures
        step_of(resp, qname) is Nxdomain || step_of(resp, qname) is GiveUp,
{
    lemma_glued_none(resp.authorities, resp.resources, qname);
}

/// NXDOMAIN short-circuits: once a response carries it and holds no
/// usable answer, the step returns the response and queries no
/// further, whatever the authority sections hold.
pub proof fn lemma_nxdomain_short_circuits(resp: PacketV, qname: Seq<u8>)
    requires
        resp.header.rescode is NXDOMAIN,
    ensures
        step_of(resp, qname) is Nxdomain,
{
}

/// A glued delegation is followed: when the response neither answers
/// nor denies the name, and the authorities hold a glued NS, the next
/// query goes to the first such address in on-wire order.
pub proof fn lemma_glued_is_followed(resp: PacketV, qname: Seq<u8>, a: Ipv4Addr)
    requires
        !(resp.answers.len() > 0 && resp.header.rescode is NOERROR),
        !(resp.header.rescode is NXDOMAIN),
        glued_ns(resp.authorities, resp.resources, qname) == Option::Some(a),
    ensures
        step_of(resp, qname) == StepV::Glued(a),
{
}

/// The request one upstream query sends: one question, no recursion
/// asked of the authoritative server.
pub fn make_query(id: u16, qname: Vec<u8>, qtype: QueryType) -> (r: DNSPacket)
    ensures
        r.header.id == id,
        !r.header.response,
        !r.header.recursion_desired,
        r.header.questions == 1,
        r.header.wf(),
        r@.questions == seq![QuestionV { name: qname@, qtype }],
        r@.answers.len() == 0,
        r@.authorities.len() == 0,
        r@.resources.len() == 0,
{
    let mut packet = DNSPacket::new();
    packet.header.id = id;
    packet.header.questions = 1;
    packet.questions.push(DNSQuestion::new(qname, qtype));
    proof {
        assert(packet@.questions =~= seq![QuestionV { name: packet.questions@[0].name@, qtype }]);
    }
    packet
}

/// The response handed back to a client, per the server's rules: the
/// request's id is echoed and recursion is offered.  A request with no
/// question yields FORMERR; a failed resolution yields SERVFAIL; a
/// resolved one echoes the question and copies the result's rescode
/// and sections.
pub fn build_response(id: u16, question: Option<DNSQuestion>, result: Option<DNSPacket>) -> (r:
    DNSPacket)
    ensures
        r.header.id == id,
        r.header.response,
        r.header.recursion_desired,
        r.header.recursion_available,
        r.header.wf(),
        match question {
            Option::None => r.header.rescode is FORMERR && r@.questions.len() == 0
                && r@.answers.len() == 0 && r@.authorities.len() == 0 && r@.resources.len() == 0,
            Option::Some(q) => match result {
                Option::None => r.header.rescode is SERVFAIL && r@.questions.len() == 0
                    && r@.answers.len() == 0 && r@.authorities.len() == 0 && r@.resources.len()
                    == 0,
                Option::Some(res) => r.header.rescode == res.header.rescode && r@.questions == seq![
                    q@,
                ] && r@.answers == res@.answers && r@.authorities == res@.authorities
                    && r@.resources == res@.resources,
            },
        },
{
    let mut response = DNSPacket::new();
    response.header.id = id;
    response.header.recursion_desired = true;
    response.header.recursion_available = true;
    response.header.response = true;
    match question {
        Some(q) => match result {
            Some(res) => {
                response.header.rescode = res.header.rescode;
                response.questions.push(q);
                response.answers = res.answers;
                response.authorities = res.authorities;
                response.resources = res.resources;
                proof {
                    assert(response@.questions =~= seq![response.questions@[0]@]);
                }
            },
            None => {
                response.header.rescode = ResultCode::SERVFAIL;
            },
        },
        None => {
            response.header.rescode = ResultCode::FORMERR;
        },
    }
    response
}

} // verus!
