//! The delegation-chasing decision logic of the iterative resolver, and the
//! assembly of query and response packets.
//!
//! The network round trips themselves are the caller's business: each
//! decision here is a pure step from a decoded response to what to do next,
//! with the choice among equally good candidates injected as a `pick` index
//! so that callers may randomize it and tests may fix it.

use vstd::prelude::*;

use crate::header::{empty_header, DnsHeader, ResultCode};
use crate::packet::{question_views, record_views, DnsPacket, PacketView};
use crate::question::{DnsQuestion, QueryType, QuestionView};
use crate::record::{DnsRecord, Ipv4Address, RecordView};

verus! {

/// Whether `suffix` is a (character) suffix of `s`: the zone test used to
/// recognize a delegation for an ancestor of the queried name.
pub open spec fn ends_with(s: Seq<char>, suffix: Seq<char>) -> bool {
    suffix.len() <= s.len() && s.skip(s.len() - suffix.len()) == suffix
}

/// The hosts of the NS records in `rs` whose owner name is a suffix of
/// `qname`, in section order.
pub open spec fn ns_hosts(rs: Seq<RecordView>, qname: Seq<char>) -> Seq<Seq<char>>
    decreases rs.len(),
{
    if rs.len() == 0 {
        Seq::empty()
    } else {
        (match rs[0] {
            RecordView::NS { domain, host, .. } => if ends_with(qname, domain) {
                seq![host]
            } else {
                Seq::empty()
            },
            _ => Seq::empty(),
        }) + ns_hosts(rs.skip(1), qname)
    }
}

/// The addresses of the A records in `rs` whose owner name is exactly
/// `host`: the glue for that name server.
pub open spec fn glue_for(rs: Seq<RecordView>, host: Seq<char>) -> Seq<Ipv4Address>
    decreases rs.len(),
{
    if rs.len() == 0 {
        Seq::empty()
    } else {
        (match rs[0] {
            RecordView::A { domain, addr, .. } => if domain == host {
                seq![addr]
            } else {
                Seq::empty()
            },
            _ => Seq::empty(),
        }) + glue_for(rs.skip(1), host)
    }
}

/// The glue addresses for a list of name-server hosts, in order.
pub open spec fn glue_list(hosts: Seq<Seq<char>>, resources: Seq<RecordView>) -> Seq<Ipv4Address>
    decreases hosts.len(),
{
    if hosts.len() == 0 {
        Seq::empty()
    } else {
        glue_for(resources, hosts[0]) + glue_list(hosts.skip(1), resources)
    }
}

/// Every usable next-server address a response offers for `qname`: for each
/// matching NS record in the authority section, the glue addresses the
/// additional section holds for its host.
pub open spec fn resolved_ns_candidates(v: PacketView, qname: Seq<char>) -> Seq<Ipv4Address> {
    glue_list(ns_hosts(v.authorities, qname), v.resources)
}

/// The addresses of the A records of a section, in order.
pub open spec fn a_answers(rs: Seq<RecordView>) -> Seq<Ipv4Address>
    decreases rs.len(),
{
    if rs.len() == 0 {
        Seq::empty()
    } else {
        (match rs[0] {
            RecordView::A { addr, .. } => seq![addr],
            _ => Seq::empty(),
        }) + a_answers(rs.skip(1))
    }
}

/// The characters of each string of a sequence.
pub open spec fn string_views(v: Seq<String>) -> Seq<Seq<char>> {
    v.map_values(|s: String| s@)
}

/// Whether `s` ends with `suffix`, character for character.
pub fn str_ends_with(s: &str, suffix: &str) -> (r: bool)
    ensures
        r == ends_with(s@, suffix@),
{
    let n = s.unicode_len();
    let k = suffix.unicode_len();
    if k > n {
        return false;
    }
    let mut i: usize = 0;
    while i < k
        invariant
            k <= n,
            n == s@.len(),
            k == suffix@.len(),
            i <= k,
            forall|j: int| 0 <= j < i ==> s@[n - k + j] == suffix@[j],
        decreases k - i,
    {
        if s.get_char(n - k + i) != suffix.get_char(i) {
            proof {
                assert(s@.skip(n as int - k as int)[i as int] != suffix@[i as int]);
            }
            return false;
        }
        i = i + 1;
    }
    proof {
        assert(s@.skip(n as int - k as int) =~= suffix@);
    }
    true
}

/// What the resolver does after one round trip.
pub enum ResolveStep {
    /// The response is final: an answer, an authoritative negative answer,
    /// or a dead end to hand back as a best effort.
    Done(DnsPacket),
    /// A resolved referral: query the same name and type against this
    /// server next.
    Query(Ipv4Address),
    /// An unresolved referral: resolve this name server's own address
    /// first; the response is kept as the best-effort fallback.
    SubResolve(String, DnsPacket),
}

impl DnsPacket {
    /// A random A-record answer, selected by the injected `pick` index.
    pub fn get_random_a(&self, pick: usize) -> (r: Option<Ipv4Address>)
        ensures
            ({
                let c = a_answers(self@.answers);
                &&& c.len() == 0 ==> r is None
                &&& c.len() > 0 ==> r == Some::<Ipv4Address>(c[pick as int % c.len() as int])
            }),
    {
        let ghost views = record_views(self.answers@);
        let mut cands: Vec<Ipv4Address> = Vec::new();
        proof {
            assert(views.skip(0) =~= views);
            assert(cands@ + a_answers(views.skip(0)) =~= a_answers(views));
        }
        let mut i: usize = 0;
        while i < self.answers.len()
            invariant
                views == record_views(self.answers@),
                i <= self.answers@.len(),
                a_answers(views) == cands@ + a_answers(views.skip(i as int)),
            decreases self.answers@.len() - i,
        {
            proof {
                assert(views.skip(i as int)[0] == views[i as int]);
                assert(views[i as int] == self.answers@[i as int]@);
                assert(views.skip(i as int).skip(1) =~= views.skip(i + 1));
            }
            match &self.answers[i] {
                DnsRecord::A { addr, .. } => {
                    cands.push(*addr);
                }
                _ => {}
            }
            i = i + 1;
        }
        proof {
            assert(views.skip(self.answers@.len() as int) =~= Seq::<RecordView>::empty());
            assert(cands@ =~= a_answers(views));
        }
        if cands.len() == 0 {
            None
        } else {
            Some(cands[pick % cands.len()])
        }
    }

    /// A next server to query for `qname`: the glue address of a matching
    /// delegation, selected by the injected `pick` index.
    pub fn get_resolved_ns(&self, qname: &str, pick: usize) -> (r: Option<Ipv4Address>)
        ensures
            ({
                let c = resolved_ns_candidates(self@, qname@);
                &&& c.len() == 0 ==> r is None
                &&& c.len() > 0 ==> r == Some::<Ipv4Address>(c[pick as int % c.len() as int])
            }),
    {
        let ghost auths = record_views(self.authorities@);
        let ghost res = record_views(self.resources@);
        let ghost q = qname@;
        let mut cands: Vec<Ipv4Address> = Vec::new();
        proof {
            assert(auths.skip(0) =~= auths);
            assert(cands@ + glue_list(ns_hosts(auths.skip(0), q), res) =~= resolved_ns_candidates(
                self@,
                q,
            ));
        }
        let mut i: usize = 0;
        while i < self.authorities.len()
            invariant
                auths == record_views(self.authorities@),
                res == record_views(self.resources@),
                q == qname@,
                i <= self.authorities@.len(),
                resolved_ns_candidates(self@, q) == cands@ + glue_list(
                    ns_hosts(auths.skip(i as int), q),
                    res,
                ),
            decreases self.authorities@.len() - i,
        {
            proof {
                assert(auths.skip(i as int)[0] == auths[i as int]);
                assert(auths[i as int] == self.authorities@[i as int]@);
                assert(auths.skip(i as int).skip(1) =~= auths.skip(i + 1));
            }
            match &self.authorities[i] {
                DnsRecord::NS { host, domain, .. } => {
                    if str_ends_with(qname, domain.as_str()) {
                        proof {
                            assert(host@ == self.authorities@[i as int]@->NS_host);
                            assert(ns_hosts(auths.skip(i as int), q) =~= seq![host@] + ns_hosts(
                                auths.skip(i + 1),
                                q,
                            ));
                            assert((seq![host@] + ns_hosts(auths.skip(i + 1), q)).skip(1)
                                =~= ns_hosts(auths.skip(i + 1), q));
                            assert(res.skip(0) =~= res);
                        }
                        let mut j: usize = 0;
                        while j < self.resources.len()
                            invariant
                                auths == record_views(self.authorities@),
                                res == record_views(self.resources@),
                                q == qname@,
                                j <= self.resources@.len(),
                                i < self.authorities@.len(),
                                host@ == self.authorities@[i as int]@->NS_host,
                                resolved_ns_candidates(self@, q) == cands@ + glue_for(
                                    res.skip(j as int),
                                    self.authorities@[i as int]@->NS_host,
                                ) + glue_list(ns_hosts(auths.skip(i + 1), q), res),
                            decreases self.resources@.len() - j,
                        {
                            let ghost cands0 = cands@;
                            proof {
                                assert(res.skip(j as int)[0] == res[j as int]);
                                assert(res[j as int] == self.resources@[j as int]@);
                                assert(res.skip(j as int).skip(1) =~= res.skip(j + 1));
                            }
                            match &self.resources[j] {
                                DnsRecord::A { domain: d2, addr, .. } => {
                                    if *d2 == *host {
                                        cands.push(*addr);
                                    }
                                }
                                _ => {}
                            }
                            proof {
                                let hostv = self.authorities@[i as int]@->NS_host;
                                assert(cands0 + glue_for(res.skip(j as int), hostv) =~= cands@
                                    + glue_for(res.skip(j + 1), hostv));
                            }
                            j = j + 1;
                        }
                        proof {
                            assert(res.skip(self.resources@.len() as int) =~= Seq::<
                                RecordView,
                            >::empty());
                        }
                    }
                }
                _ => {}
            }
            i = i + 1;
        }
        proof {
            assert(auths.skip(self.authorities@.len() as int) =~= Seq::<RecordView>::empty());
        }
        if cands.len() == 0 {
            None
        } else {
            Some(cands[pick % cands.len()])
        }
    }

    /// The host name of a matching delegation, selected by the injected
    /// `pick` index. Callers turn to it when no glue address was usable:
    /// that name server's own address must be resolved before delegation
    /// can continue.
    pub fn get_unresolved_ns(&self, qname: &str, pick: usize) -> (r: Option<String>)
        ensures
            ({
                let hosts = ns_hosts(self@.authorities, qname@);
                &&& hosts.len() == 0 ==> r is None
                &&& hosts.len() > 0 ==> (r matches Some(h) && h@ == hosts[pick as int
                    % hosts.len() as int])
            }),
    {
        let ghost auths = record_views(self.authorities@);
        let ghost q = qname@;
        let mut cands: Vec<String> = Vec::new();
        proof {
            assert(auths.skip(0) =~= auths);
            assert(string_views(cands@) + ns_hosts(auths.skip(0), q) =~= ns_hosts(auths, q));
        }
        let mut i: usize = 0;
        while i < self.authorities.len()
            invariant
                auths == record_views(self.authorities@),
                q == qname@,
                i <= self.authorities@.len(),
                ns_hosts(auths, q) == string_views(cands@) + ns_hosts(auths.skip(i as int), q),
            decreases self.authorities@.len() - i,
        {
            proof {
                assert(auths.skip(i as int)[0] == auths[i as int]);
                assert(auths[i as int] == self.authorities@[i as int]@);
                assert(auths.skip(i as int).skip(1) =~= auths.skip(i + 1));
            }
            match &self.authorities[i] {
                DnsRecord::NS { host, domain, .. } => {
                    if str_ends_with(qname, domain.as_str()) {
                        cands.push(host.clone());
                        proof {
                            assert(string_views(cands@) =~= string_views(
                                cands@.take(cands@.len() - 1),
                            ).push(cands@[cands@.len() - 1]@));
                            assert(string_views(cands@.take(cands@.len() - 1)) == string_views(
                                cands@,
                            ).take(cands@.len() - 1));
                        }
                    }
                }
                _ => {}
            }
            i = i + 1;
        }
        proof {
            assert(auths.skip(self.authorities@.len() as int) =~= Seq::<RecordView>::empty());
            assert(string_views(cands@) =~= ns_hosts(auths, q));
        }
        if cands.len() == 0 {
            None
        } else {
            let h = &cands[pick % cands.len()];
            Some(h.clone())
        }
    }

    /// Decide what the resolver does with this response to a query for
    /// `qname`: done on an answer with `NOERROR` or on `NXDOMAIN`; else
    /// follow a glued delegation; else resolve a glueless delegation's
    /// name server; else the response itself is the best effort.
    pub fn resolve_step(self, qname: &str, pick: usize) -> (r: ResolveStep)
        ensures
            ({
                let v = self@;
                let resolved = resolved_ns_candidates(v, qname@);
                let hosts = ns_hosts(v.authorities, qname@);
                if v.answers.len() > 0 && v.header.rescode == ResultCode::NOERROR {
                    r matches ResolveStep::Done(p) && p@ == v
                } else if v.header.rescode == ResultCode::NXDOMAIN {
                    r matches ResolveStep::Done(p) && p@ == v
                } else if resolved.len() > 0 {
                    r matches ResolveStep::Query(a) && a == resolved[pick as int
                        % resolved.len() as int]
                } else if hosts.len() > 0 {
                    r matches ResolveStep::SubResolve(h, p) && h@ == hosts[pick as int
                        % hosts.len() as int] && p@ == v
                } else {
                    r matches ResolveStep::Done(p) && p@ == v
                }
            }),
    {
        if self.answers.len() > 0 && self.header.rescode == ResultCode::NOERROR {
            return ResolveStep::Done(self);
        }
        if self.header.rescode == ResultCode::NXDOMAIN {
            return ResolveStep::Done(self);
        }
        match self.get_resolved_ns(qname, pick) {
            Some(addr) => {
                return ResolveStep::Query(addr);
            }
            None => {}
        }
        match self.get_unresolved_ns(qname, pick) {
            Some(host) => ResolveStep::SubResolve(host, self),
            None => ResolveStep::Done(self),
        }
    }
}

/// The request packet for one lookup: a fresh header carrying `id` with
/// recursion desired and a question count of one, and that single question.
pub fn build_query(id: u16, qname: &str, qtype: QueryType) -> (r: DnsPacket)
    ensures
        r.header == (DnsHeader { id, recursion_desired: true, questions: 1, ..empty_header() }),
        r@.questions == seq![QuestionView { name: qname@, qtype }],
        r@.answers.len() == 0,
        r@.authorities.len() == 0,
        r@.resources.len() == 0,
{
    let mut packet = DnsPacket::new();
    packet.header.id = id;
    packet.header.questions = 1;
    packet.header.recursion_desired = true;
    packet.questions.push(DnsQuestion::new(qname, qtype));
    proof {
        assert(question_views(packet.questions@) =~~= seq![QuestionView { name: qname@, qtype }]);
    }
    packet
}

/// The response to one inbound request: the request's transaction id is
/// echoed and the recursion and response flags are set. With no question to
/// serve, the response is `FORMERR` with empty sections; with a question
/// but no resolver result, `SERVFAIL` with empty sections; with a result,
/// the question is echoed and the result's response code and three record
/// sections are taken over whole.
pub fn build_response(id: u16, question: Option<&DnsQuestion>, result: Option<DnsPacket>) -> (r:
    DnsPacket)
    ensures
        r.header.id == id,
        r.header.recursion_desired,
        r.header.recursion_available,
        r.header.response,
        question is None ==> r.header.rescode == ResultCode::FORMERR && r@.questions.len() == 0
            && r@.answers.len() == 0 && r@.authorities.len() == 0 && r@.resources.len() == 0,
        question is Some && result is None ==> r.header.rescode == ResultCode::SERVFAIL
            && r@.questions.len() == 0 && r@.answers.len() == 0 && r@.authorities.len() == 0
            && r@.resources.len() == 0,
        (match result {
            Some(res) => question matches Some(q) ==> r.header.rescode == res.header.rescode
                && r@.questions == seq![q@] && r@.answers == res@.answers && r@.authorities
                == res@.authorities && r@.resources == res@.resources,
            None => true,
        }),
{
    let mut response = DnsPacket::new();
    response.header.id = id;
    response.header.recursion_desired = true;
    response.header.recursion_available = true;
    response.header.response = true;
    match question {
        None => {
            response.header.rescode = ResultCode::FORMERR;
        }
        Some(q) => match result {
            None => {
                response.header.rescode = ResultCode::SERVFAIL;
            }
            Some(res) => {
                response.questions.push(DnsQuestion::new(q.name.as_str(), q.qtype));
                let DnsPacket { header: rh, answers, authorities, resources, .. } = res;
                response.header.rescode = rh.rescode;
                response.answers = answers;
                response.authorities = authorities;
                response.resources = resources;
                proof {
                    assert(question_views(response.questions@) =~~= seq![q@]);
                }
            }
        },
    }
    response
}

} // verus!
