//! The responder engine's decisions: which records answer a question, which datagrams a
//! packet or a command puts on the outgoing queue, and when the engine stops.
use vstd::prelude::*;
use std::collections::VecDeque;
use core::marker::PhantomData;
use crate::address_family::{group_v4, group_v6, of_family, AddressFamily};
use crate::dns::{
    encode_response, enc_response, record_well_formed, response_fits, DataModel, IpAddr,
    Question, QuestionModel, RRData, RecordModel, ResourceRecord, SocketAddr, CLASS_ANY,
    CLASS_IN, TYPE_A, TYPE_AAAA, TYPE_ALL, TYPE_PTR, TYPE_SRV, TYPE_TXT,
};
use crate::name::{same_name, valid_labels, Name};
use crate::parse::{packet_of, MAX_PACKET_SIZE};
use crate::round_trip::{lemma_response_round_trip, response_header};
use crate::dns::PacketModel;
use crate::dns::Packet;
use crate::services::{by_name, of_type, types_of, ServiceData, ServiceModel, ServicesInner};
use crate::{DEFAULT_TTL, MDNS_PORT};

verus! {

/// One address of a local network interface.
pub struct InterfaceAddress {
    pub ip: Option<IpAddr>,
    pub loopback: bool,
}

impl InterfaceAddress {
    pub fn ip(&self) -> (r: Option<IpAddr>)
        ensures
            r == self.ip,
    {
        self.ip
    }

    pub fn is_loopback(&self) -> (r: bool)
        ensures
            r == self.loopback,
    {
        self.loopback
    }
}

/// The A or AAAA record of the host for the address of an interface, when the engine
/// advertises it: a non-loopback address of the engine's family.
pub open spec fn ip_rr(host: Seq<Seq<u8>>, i: InterfaceAddress, ttl: u32, v6: bool) -> Seq<RecordModel> {
    match i.ip {
        Some(ip) => if !i.loopback && of_family(ip, v6) {
            seq![
                RecordModel {
                    name: host,
                    cls: CLASS_IN,
                    ttl,
                    data: match ip {
                        IpAddr::V4(a) => DataModel::A(a@),
                        IpAddr::V6(a) => DataModel::AAAA(a@),
                    },
                },
            ]
        } else {
            Seq::empty()
        },
        None => Seq::empty(),
    }
}

/// The host's address records, one per advertised interface address, in order.
pub open spec fn ip_rrs(host: Seq<Seq<u8>>, ifs: Seq<InterfaceAddress>, ttl: u32, v6: bool) -> Seq<RecordModel>
    decreases ifs.len(),
{
    if ifs.len() == 0 {
        Seq::empty()
    } else {
        ip_rrs(host, ifs.drop_last(), ttl, v6) + ip_rr(host, ifs.last(), ttl, v6)
    }
}

/// The PTR record from a service's type to its instance name.
pub open spec fn ptr_rr(s: ServiceModel, ttl: u32) -> RecordModel {
    RecordModel { name: s.typ, cls: CLASS_IN, ttl, data: DataModel::PTR(s.name) }
}

/// The SRV record of a service: the host and the port.
pub open spec fn srv_rr(s: ServiceModel, host: Seq<Seq<u8>>, ttl: u32) -> RecordModel {
    RecordModel { name: s.name, cls: CLASS_IN, ttl, data: DataModel::SRV(0, 0, s.port, host) }
}

/// The TXT record of a service.
pub open spec fn txt_rr(s: ServiceModel, ttl: u32) -> RecordModel {
    RecordModel { name: s.name, cls: CLASS_IN, ttl, data: DataModel::TXT(s.txt) }
}

/// For each service in turn: its PTR, SRV and TXT records and the host's addresses.
pub open spec fn service_rrs(
    svcs: Seq<ServiceModel>,
    host: Seq<Seq<u8>>,
    ifs: Seq<InterfaceAddress>,
    v6: bool,
) -> Seq<RecordModel>
    decreases svcs.len(),
{
    if svcs.len() == 0 {
        Seq::empty()
    } else {
        let s = svcs.last();
        service_rrs(svcs.drop_last(), host, ifs, v6) + seq![
            ptr_rr(s, DEFAULT_TTL),
            srv_rr(s, host, DEFAULT_TTL),
            txt_rr(s, DEFAULT_TTL),
        ] + ip_rrs(host, ifs, DEFAULT_TTL, v6)
    }
}

/// One PTR record from `qname` to each type.
pub open spec fn type_rrs(qname: Seq<Seq<u8>>, types: Seq<Seq<Seq<u8>>>) -> Seq<RecordModel> {
    types.map_values(
        |t: Seq<Seq<u8>>| RecordModel { name: qname, cls: CLASS_IN, ttl: DEFAULT_TTL, data: DataModel::PTR(t) },
    )
}

/// `_services._dns-sd._udp.local`, the name that asks for the service types.
pub open spec fn meta_name() -> Seq<Seq<u8>> {
    seq![
        seq![95u8, 115, 101, 114, 118, 105, 99, 101, 115],
        seq![95u8, 100, 110, 115, 45, 115, 100],
        seq![95u8, 117, 100, 112],
        seq![108u8, 111, 99, 97, 108],
    ]
}

/// The class of the question is one the responder answers: IN or any.
pub open spec fn class_answered(q: QuestionModel) -> bool {
    q.qclass == CLASS_IN || q.qclass == CLASS_ANY
}

/// The records that answer a question, given the registered services, the host name
/// and the interface addresses.
pub open spec fn answers(
    es: crate::services::Entries,
    host: Seq<Seq<u8>>,
    q: QuestionModel,
    ifs: Seq<InterfaceAddress>,
    v6: bool,
) -> Seq<RecordModel> {
    if (q.qtype == TYPE_A || q.qtype == TYPE_AAAA || q.qtype == TYPE_ALL) && same_name(q.qname, host) {
        ip_rrs(host, ifs, DEFAULT_TTL, v6)
    } else if q.qtype == TYPE_PTR {
        if same_name(q.qname, meta_name()) {
            type_rrs(q.qname, types_of(es))
        } else {
            service_rrs(of_type(es, q.qname), host, ifs, v6)
        }
    } else if q.qtype == TYPE_SRV {
        match by_name(es, q.qname) {
            Some(s) => seq![srv_rr(s, host, DEFAULT_TTL)] + ip_rrs(host, ifs, DEFAULT_TTL, v6),
            None => Seq::empty(),
        }
    } else if q.qtype == TYPE_TXT {
        match by_name(es, q.qname) {
            Some(s) => seq![txt_rr(s, DEFAULT_TTL)],
            None => Seq::empty(),
        }
    } else {
        Seq::empty()
    }
}

/// The answers to the questions, split into those for the multicast response and those
/// for the unicast one (questions with the QU bit). Questions of another class get none.
pub open spec fn routed_answers(
    es: crate::services::Entries,
    host: Seq<Seq<u8>>,
    qs: Seq<QuestionModel>,
    ifs: Seq<InterfaceAddress>,
    v6: bool,
) -> (Seq<RecordModel>, Seq<RecordModel>)
    decreases qs.len(),
{
    if qs.len() == 0 {
        (Seq::empty(), Seq::empty())
    } else {
        let (m, u) = routed_answers(es, host, qs.drop_last(), ifs, v6);
        let q = qs.last();
        if !class_answered(q) {
            (m, u)
        } else if q.qu {
            (m, u + answers(es, host, q, ifs, v6))
        } else {
            (m + answers(es, host, q, ifs, v6), u)
        }
    }
}

/// The records announced for a service: PTR, SRV, TXT and, when asked, the host's addresses.
pub open spec fn unsolicited_rrs(
    s: ServiceModel,
    host: Seq<Seq<u8>>,
    ttl: u32,
    include_ip: bool,
    ifs: Seq<InterfaceAddress>,
    v6: bool,
) -> Seq<RecordModel> {
    seq![ptr_rr(s, ttl), srv_rr(s, host, ttl), txt_rr(s, ttl)] + if include_ip {
        ip_rrs(host, ifs, ttl, v6)
    } else {
        Seq::empty()
    }
}

/// The views of records.
pub open spec fn rr_views(v: Seq<ResourceRecord>) -> Seq<RecordModel> {
    v.map_values(|r: ResourceRecord| r@)
}

/// Every record is well formed.
pub open spec fn all_well_formed(rs: Seq<RecordModel>) -> bool {
    forall|i: int| 0 <= i < rs.len() ==> record_well_formed(#[trigger] rs[i])
}

proof fn lemma_push_view(v: Seq<ResourceRecord>, r: ResourceRecord)
    ensures
        rr_views(v.push(r)) == rr_views(v).push(r@),
{
    assert(rr_views(v.push(r)) =~= rr_views(v).push(r@));
}

proof fn lemma_well_formed_concat(a: Seq<RecordModel>, b: Seq<RecordModel>)
    requires
        all_well_formed(a),
        all_well_formed(b),
    ensures
        all_well_formed(a + b),
{
    assert forall|i: int| 0 <= i < (a + b).len() implies record_well_formed(#[trigger] (a + b)[i]) by {
        if i < a.len() {
            assert((a + b)[i] == a[i]);
        } else {
            assert((a + b)[i] == b[i - a.len()]);
        }
    }
}

proof fn lemma_ip_rrs_well_formed(host: Seq<Seq<u8>>, ifs: Seq<InterfaceAddress>, ttl: u32, v6: bool)
    requires
        valid_labels(host),
    ensures
        all_well_formed(ip_rrs(host, ifs, ttl, v6)),
    decreases ifs.len(),
{
    if ifs.len() > 0 {
        lemma_ip_rrs_well_formed(host, ifs.drop_last(), ttl, v6);
        lemma_well_formed_concat(ip_rrs(host, ifs.drop_last(), ttl, v6), ip_rr(host, ifs.last(), ttl, v6));
    }
}

/// Appends the host's address records for the engine's family.
fn add_ip_rr<AF: AddressFamily>(
    host: &Name,
    out: &mut Vec<ResourceRecord>,
    ifaces: &Vec<InterfaceAddress>,
    ttl: u32,
)
    requires
        host.wf(),
    ensures
        rr_views(final(out)@) == rr_views(old(out)@) + ip_rrs(host@, ifaces@, ttl, AF::is_v6()),
{
    let v6 = AF::v6();
    let mut i: usize = 0;
    while i < ifaces.len()
        invariant
            host.wf(),
            v6 == AF::is_v6(),
            0 <= i <= ifaces@.len(),
            rr_views(out@) == rr_views(old(out)@) + ip_rrs(host@, ifaces@.subrange(0, i as int), ttl, v6),
        decreases ifaces@.len() - i,
    {
        let iface = &ifaces[i];
        let ghost before = rr_views(out@);
        assert(ifaces@.subrange(0, i + 1).drop_last() =~= ifaces@.subrange(0, i as int));
        assert(ifaces@.subrange(0, i + 1).last() == ifaces@[i as int]);
        if !iface.is_loopback() {
            match iface.ip() {
                Some(IpAddr::V4(a)) => {
                    if !v6 {
                        let r = ResourceRecord { name: host.duplicate(), cls: CLASS_IN, ttl, data: RRData::A(a) };
                        proof { lemma_push_view(out@, r); }
                        out.push(r);
                    }
                },
                Some(IpAddr::V6(a)) => {
                    if v6 {
                        let r = ResourceRecord { name: host.duplicate(), cls: CLASS_IN, ttl, data: RRData::AAAA(a) };
                        proof { lemma_push_view(out@, r); }
                        out.push(r);
                    }
                },
                None => {},
            }
        }
        proof {
            assert(rr_views(out@) =~= before + ip_rr(host@, ifaces@[i as int], ttl, v6));
        }
        i = i + 1;
    }
    assert(ifaces@.subrange(0, ifaces@.len() as int) == ifaces@);
}

fn ptr_record(s: &ServiceData, ttl: u32) -> (r: ResourceRecord)
    ensures
        r@ == ptr_rr(s@, ttl),
{
    ResourceRecord { name: s.typ.duplicate(), cls: CLASS_IN, ttl, data: RRData::PTR(s.name.duplicate()) }
}

fn srv_record(s: &ServiceData, host: &Name, ttl: u32) -> (r: ResourceRecord)
    ensures
        r@ == srv_rr(s@, host@, ttl),
{
    ResourceRecord {
        name: s.name.duplicate(),
        cls: CLASS_IN,
        ttl,
        data: RRData::SRV { priority: 0, weight: 0, port: s.port, target: host.duplicate() },
    }
}

fn txt_record(s: &ServiceData, ttl: u32) -> (r: ResourceRecord)
    ensures
        r@ == txt_rr(s@, ttl),
{
    ResourceRecord { name: s.name.duplicate(), cls: CLASS_IN, ttl, data: RRData::TXT(crate::name::copy_bytes(&s.txt)) }
}

/// `_services._dns-sd._udp.local`.
pub fn services_meta_name() -> (r: Name)
    ensures
        r@ == meta_name(),
        r.wf(),
{
    let labels: Vec<Vec<u8>> = vec![
        vec![95u8, 115, 101, 114, 118, 105, 99, 101, 115],
        vec![95u8, 100, 110, 115, 45, 115, 100],
        vec![95u8, 117, 100, 112],
        vec![108u8, 111, 99, 97, 108],
    ];
    let r = Name { labels };
    proof {
        assert(r@ =~= meta_name());
        reveal_with_fuel(crate::name::wire_len, 5);
        assert(crate::name::wire_len(meta_name()) == 30);
    }
    r
}

proof fn lemma_answers_well_formed(
    es: crate::services::Entries,
    host: Seq<Seq<u8>>,
    q: QuestionModel,
    ifs: Seq<InterfaceAddress>,
    v6: bool,
    out: Seq<RecordModel>,
)
    requires
        valid_labels(host),
        valid_labels(q.qname),
        all_well_formed(out),
        forall|i: int| 0 <= i < types_of(es).len() ==> valid_labels(#[trigger] types_of(es)[i]),
        crate::services::names_valid(of_type(es, q.qname)),
        by_name(es, q.qname) matches Some(s) ==> valid_labels(s.name),
    ensures
        all_well_formed(out + answers(es, host, q, ifs, v6)),
{
    lemma_ip_rrs_well_formed(host, ifs, DEFAULT_TTL, v6);
    lemma_service_rrs_well_formed(of_type(es, q.qname), host, ifs, v6);
    lemma_well_formed_concat(out, answers(es, host, q, ifs, v6));
}

proof fn lemma_service_rrs_well_formed(
    svcs: Seq<ServiceModel>,
    host: Seq<Seq<u8>>,
    ifs: Seq<InterfaceAddress>,
    v6: bool,
)
    requires
        valid_labels(host),
        crate::services::names_valid(svcs),
    ensures
        all_well_formed(service_rrs(svcs, host, ifs, v6)),
    decreases svcs.len(),
{
    if svcs.len() > 0 {
        let s = svcs.last();
        assert(valid_labels(svcs[svcs.len() - 1].typ));
        lemma_service_rrs_well_formed(svcs.drop_last(), host, ifs, v6);
        lemma_ip_rrs_well_formed(host, ifs, DEFAULT_TTL, v6);
        let three = seq![ptr_rr(s, DEFAULT_TTL), srv_rr(s, host, DEFAULT_TTL), txt_rr(s, DEFAULT_TTL)];
        lemma_well_formed_concat(service_rrs(svcs.drop_last(), host, ifs, v6), three);
        lemma_well_formed_concat(service_rrs(svcs.drop_last(), host, ifs, v6) + three, ip_rrs(host, ifs, DEFAULT_TTL, v6));
    }
}

/// Appends the records that answer a question. The question's class is not looked at
/// here: the caller has already chosen to answer it.
pub fn handle_question<AF: AddressFamily>(
    services: &ServicesInner,
    question: &Question,
    ifaces: &Vec<InterfaceAddress>,
    out: &mut Vec<ResourceRecord>,
)
    requires
        services.wf(),
        question.qname.wf(),
        all_well_formed(rr_views(old(out)@)),
    ensures
        rr_views(final(out)@) == rr_views(old(out)@) + answers(
            services.entries(),
            services.host(),
            question@,
            ifaces@,
            AF::is_v6(),
        ),
        all_well_formed(rr_views(final(out)@)),
{
    let ghost es = services.entries();
    let ghost v6 = AF::is_v6();
    let host = services.get_hostname();
    let qt = question.qtype;
    let qn = &question.qname;
    let ghost start = rr_views(out@);
    if (qt == TYPE_A || qt == TYPE_AAAA || qt == TYPE_ALL) && qn.same_as(host) {
        add_ip_rr::<AF>(host, out, ifaces, DEFAULT_TTL);
    } else if qt == TYPE_PTR {
        let meta = services_meta_name();
        if qn.same_as(&meta) {
            let types = services.types_iter();
            let mut i: usize = 0;
            while i < types.len()
                invariant
                    es == services.entries(),
                    question@.qname == qn@,
                    0 <= i <= types@.len(),
                    types@.map_values(|n: Name| n@) == types_of(es),
                    rr_views(out@) == start + type_rrs(question@.qname, types_of(es).subrange(0, i as int)),
                decreases types@.len() - i,
            {
                let r = ResourceRecord {
                    name: qn.duplicate(),
                    cls: CLASS_IN,
                    ttl: DEFAULT_TTL,
                    data: RRData::PTR(types[i].duplicate()),
                };
                proof {
                    lemma_push_view(out@, r);
                    assert(types_of(es)[i as int] == types@[i as int]@);
                    let ts = types_of(es).subrange(0, i as int);
                    let t = types_of(es)[i as int];
                    assert(types_of(es).subrange(0, i + 1) =~= ts.push(t));
                    assert(type_rrs(question@.qname, ts.push(t))[i as int] == r@);
                    assert(type_rrs(question@.qname, types_of(es).subrange(0, i + 1)) =~= type_rrs(
                        question@.qname,
                        types_of(es).subrange(0, i as int),
                    ).push(r@));
                }
                out.push(r);
                i = i + 1;
            }
            assert(types_of(es).subrange(0, types@.len() as int) == types_of(es));
        } else {
            let svcs = services.find_by_type(qn);
            let mut i: usize = 0;
            while i < svcs.len()
                invariant
                    host.wf(),
                    host@ == services.host(),
                    es == services.entries(),
                    v6 == AF::is_v6(),
                    0 <= i <= svcs@.len(),
                    svcs@.map_values(|d: ServiceData| d@) == of_type(es, question@.qname),
                    rr_views(out@) == start + service_rrs(of_type(es, question@.qname).subrange(0, i as int), host@, ifaces@, v6),
                decreases svcs@.len() - i,
            {
                let s = &svcs[i];
                let ghost before = rr_views(out@);
                let ghost sub = of_type(es, question@.qname).subrange(0, i + 1);
                proof {
                    assert(of_type(es, question@.qname)[i as int] == s@);
                    assert(sub.drop_last() =~= of_type(es, question@.qname).subrange(0, i as int));
                    assert(sub.last() == s@);
                }
                let r1 = ptr_record(s, DEFAULT_TTL);
                proof { lemma_push_view(out@, r1); }
                out.push(r1);
                assert(rr_views(out@) == before.push(r1@));
                let r2 = srv_record(s, host, DEFAULT_TTL);
                proof { lemma_push_view(out@, r2); }
                out.push(r2);
                assert(rr_views(out@) == before.push(r1@).push(r2@));
                let r3 = txt_record(s, DEFAULT_TTL);
                proof { lemma_push_view(out@, r3); }
                out.push(r3);
                let ghost mid = rr_views(out@);
                assert(mid =~= before + seq![r1@, r2@, r3@]);
                add_ip_rr::<AF>(host, out, ifaces, DEFAULT_TTL);
                proof {
                    assert(rr_views(out@) =~= before + seq![r1@, r2@, r3@] + ip_rrs(host@, ifaces@, DEFAULT_TTL, v6));
                }
                i = i + 1;
            }
            assert(of_type(es, question@.qname).subrange(0, svcs@.len() as int) == of_type(es, question@.qname));
        }
    } else if qt == TYPE_SRV {
        match services.find_by_name(qn) {
            Some(s) => {
                let r = srv_record(&s, host, DEFAULT_TTL);
                proof { lemma_push_view(out@, r); }
                out.push(r);
                add_ip_rr::<AF>(host, out, ifaces, DEFAULT_TTL);
                assert(rr_views(out@) =~= start + (seq![r@] + ip_rrs(host@, ifaces@, DEFAULT_TTL, v6)));
            },
            None => {},
        }
    } else if qt == TYPE_TXT {
        match services.find_by_name(qn) {
            Some(s) => {
                let r = txt_record(&s, DEFAULT_TTL);
                proof { lemma_push_view(out@, r); }
                out.push(r);
            },
            None => {},
        }
    }
    proof {
        assert(rr_views(out@) =~= start + answers(es, services.host(), question@, ifaces@, v6));
        services.lemma_wf_names(question@.qname);
        lemma_answers_well_formed(es, services.host(), question@, ifaces@, v6, start);
    }
}

/// A command to a responder engine.
pub enum Command {
    /// Announce a service without being asked, with the given time to live (zero to
    /// retract it), and with the host's addresses when `include_ip` holds.
    SendUnsolicited { svc: ServiceData, ttl: u32, include_ip: bool },
    /// Stop the engine.
    Shutdown,
}

impl Command {
    /// An equal copy, one for each engine a command goes to.
    pub fn duplicate(&self) -> (r: Command)
        ensures
            match (self, r) {
                (Command::SendUnsolicited { svc: a, ttl: t1, include_ip: i1 }, Command::SendUnsolicited { svc: b, ttl: t2, include_ip: i2 }) =>
                    a@ == b@ && t1 == t2 && i1 == i2 && (a.wf() ==> b.wf()),
                (Command::Shutdown, Command::Shutdown) => true,
                _ => false,
            },
    {
        match self {
            Command::SendUnsolicited { svc, ttl, include_ip } => Command::SendUnsolicited {
                svc: svc.duplicate(),
                ttl: *ttl,
                include_ip: *include_ip,
            },
            Command::Shutdown => Command::Shutdown,
        }
    }
}

/// What became of an attempt to send a datagram.
#[derive(Clone, Copy, Debug, PartialEq, Eq, Structural)]
pub enum SendOutcome {
    Sent,
    /// The socket cannot take it now.
    WouldBlock,
    /// Sending failed; mDNS is lossy, so the datagram is dropped.
    Failed,
}

/// The mDNS group and port of the engine's family.
pub open spec fn group_addr(v6: bool) -> SocketAddr {
    SocketAddr { ip: if v6 { group_v6() } else { group_v4() }, port: MDNS_PORT }
}

/// The datagram carrying a response with these answers, if there is one to send: none
/// when there are no answers, or when they do not fit in one UDP datagram.
pub open spec fn datagram(id: u16, rs: Seq<RecordModel>, dest: SocketAddr) -> Seq<(Seq<u8>, SocketAddr)> {
    if rs.len() == 0 || !response_fits(rs) || enc_response(id, rs).len() > MAX_PACKET_SIZE {
        Seq::empty()
    } else {
        seq![(enc_response(id, rs), dest)]
    }
}

/// The datagrams that a packet received from `addr` calls for: nothing for bytes that
/// are no DNS message, for a response, or for a truncated query; else the multicast
/// response, then the unicast one, each when it has answers.
pub open spec fn packet_datagrams(
    b: Seq<u8>,
    addr: SocketAddr,
    es: crate::services::Entries,
    host: Seq<Seq<u8>>,
    ifs: Seq<InterfaceAddress>,
    v6: bool,
) -> Seq<(Seq<u8>, SocketAddr)> {
    match packet_of(b) {
        None => Seq::empty(),
        Some(p) => if !p.header.query || p.header.truncated {
            Seq::empty()
        } else {
            let (m, u) = routed_answers(es, host, p.questions, ifs, v6);
            datagram(p.header.id, m, group_addr(v6)) + datagram(p.header.id, u, addr)
        },
    }
}

/// The state of one responder engine: its queue of datagrams to send.
pub struct FSMState<AF: AddressFamily> {
    outgoing: VecDeque<(Vec<u8>, SocketAddr)>,
    _af: PhantomData<AF>,
}

/// The views of queued datagrams.
pub open spec fn queue_view(q: Seq<(Vec<u8>, SocketAddr)>) -> Seq<(Seq<u8>, SocketAddr)> {
    q.map_values(|d: (Vec<u8>, SocketAddr)| (d.0@, d.1))
}

impl<AF: AddressFamily> FSMState<AF> {
    /// The datagrams waiting to be sent, oldest first.
    pub closed spec fn queue(&self) -> Seq<(Seq<u8>, SocketAddr)> {
        queue_view(self.outgoing@)
    }

    /// An engine with nothing to send.
    pub fn new() -> (r: FSMState<AF>)
        ensures
            r.queue() == Seq::<(Seq<u8>, SocketAddr)>::empty(),
    {
        let r = FSMState { outgoing: VecDeque::new(), _af: PhantomData };
        assert(r.queue() =~= Seq::<(Seq<u8>, SocketAddr)>::empty());
        r
    }

    /// Queues the response with these answers, if there is one to send.
    fn emit(&mut self, id: u16, answers: &Vec<ResourceRecord>, dest: SocketAddr)
        requires
            all_well_formed(rr_views(answers@)),
        ensures
            final(self).queue() == old(self).queue() + datagram(id, rr_views(answers@), dest),
    {
        if answers.len() == 0 {
            assert(old(self).queue() + Seq::<(Seq<u8>, SocketAddr)>::empty() =~= old(self).queue());
            return;
        }
        proof {
            assert forall|i: int| 0 <= i < answers@.len() implies record_well_formed(#[trigger] answers@[i]@) by {
                assert(rr_views(answers@)[i] == answers@[i]@);
            }
        }
        match encode_response(id, answers) {
            Some(bytes) => {
                if bytes.len() > MAX_PACKET_SIZE {
                    assert(old(self).queue() + Seq::<(Seq<u8>, SocketAddr)>::empty() =~= old(self).queue());
                    return;
                }
                let ghost bv = bytes@;
                self.outgoing.push_back((bytes, dest));
                assert(self.queue() =~= old(self).queue() + seq![(bv, dest)]);
            },
            None => {
                assert(old(self).queue() + Seq::<(Seq<u8>, SocketAddr)>::empty() =~= old(self).queue());
            },
        }
    }

    /// Handles a packet received from `addr`: answers the questions of a well-formed,
    /// untruncated query, in one multicast response and one unicast response.
    pub fn handle_packet(
        &mut self,
        services: &ServicesInner,
        ifaces: &Vec<InterfaceAddress>,
        buffer: &[u8],
        addr: SocketAddr,
    )
        requires
            services.wf(),
        ensures
            final(self).queue() == old(self).queue() + packet_datagrams(
                buffer@,
                addr,
                services.entries(),
                services.host(),
                ifaces@,
                AF::is_v6(),
            ),
    {
        let ghost es = services.entries();
        let ghost host = services.host();
        let ghost v6 = AF::is_v6();
        let packet = match Packet::parse(buffer) {
            Ok(p) => p,
            Err(_) => {
                assert(old(self).queue() + Seq::<(Seq<u8>, SocketAddr)>::empty() =~= old(self).queue());
                return;
            },
        };
        if !packet.header.query || packet.header.truncated {
            assert(old(self).queue() + Seq::<(Seq<u8>, SocketAddr)>::empty() =~= old(self).queue());
            return;
        }
        let ghost qs = packet@.questions;
        let mut unicast: Vec<ResourceRecord> = Vec::new();
        let mut multicast: Vec<ResourceRecord> = Vec::new();
        let mut i: usize = 0;
        proof {
            assert(rr_views(unicast@) =~= Seq::<RecordModel>::empty());
            assert(rr_views(multicast@) =~= Seq::<RecordModel>::empty());
            assert(qs.subrange(0, 0) =~= Seq::<QuestionModel>::empty());
        }
        while i < packet.questions.len()
            invariant
                services.wf(),
                es == services.entries(),
                host == services.host(),
                v6 == AF::is_v6(),
                qs == packet@.questions,
                forall|j: int| 0 <= j < packet.questions@.len() ==> (#[trigger] packet.questions@[j]).qname.wf(),
                0 <= i <= qs.len(),
                (rr_views(multicast@), rr_views(unicast@)) == routed_answers(es, host, qs.subrange(0, i as int), ifaces@, v6),
                all_well_formed(rr_views(multicast@)),
                all_well_formed(rr_views(unicast@)),
            decreases qs.len() - i,
        {
            let q = &packet.questions[i];
            proof {
                assert(qs[i as int] == q@);
                assert(qs.subrange(0, i + 1).drop_last() =~= qs.subrange(0, i as int));
                assert(qs.subrange(0, i + 1).last() == q@);
            }
            if q.qclass == CLASS_IN || q.qclass == CLASS_ANY {
                if q.qu {
                    handle_question::<AF>(services, q, ifaces, &mut unicast);
                } else {
                    handle_question::<AF>(services, q, ifaces, &mut multicast);
                }
            }
            i = i + 1;
        }
        assert(qs.subrange(0, qs.len() as int) == qs);
        let group = SocketAddr { ip: AF::mdns_group(), port: MDNS_PORT };
        self.emit(packet.header.id, &multicast, group);
        self.emit(packet.header.id, &unicast, addr);
        assert(self.queue() =~= old(self).queue() + packet_datagrams(buffer@, addr, es, host, ifaces@, v6));
    }

    /// Queues an unsolicited announcement of a service: PTR, SRV and TXT records and,
    /// when `include_ip` holds, the host's addresses, all with the given time to live,
    /// sent to the mDNS group with id zero.
    pub fn send_unsolicited(
        &mut self,
        services: &ServicesInner,
        ifaces: &Vec<InterfaceAddress>,
        svc: &ServiceData,
        ttl: u32,
        include_ip: bool,
    )
        requires
            services.wf(),
            svc.wf(),
        ensures
            final(self).queue() == old(self).queue() + datagram(
                0,
                unsolicited_rrs(svc@, services.host(), ttl, include_ip, ifaces@, AF::is_v6()),
                group_addr(AF::is_v6()),
            ),
    {
        let host = services.get_hostname();
        let mut out: Vec<ResourceRecord> = Vec::new();
        let r1 = ptr_record(svc, ttl);
        let r2 = srv_record(svc, host, ttl);
        let r3 = txt_record(svc, ttl);
        out.push(r1);
        out.push(r2);
        out.push(r3);
        let ghost three = seq![r1@, r2@, r3@];
        assert(rr_views(out@) =~= three);
        proof {
            assert forall|i: int| 0 <= i < three.len() implies record_well_formed(#[trigger] three[i]) by {}
            lemma_ip_rrs_well_formed(host@, ifaces@, ttl, AF::is_v6());
        }
        if include_ip {
            add_ip_rr::<AF>(host, &mut out, ifaces, ttl);
            proof {
                lemma_well_formed_concat(three, ip_rrs(host@, ifaces@, ttl, AF::is_v6()));
            }
        }
        assert(rr_views(out@) =~= unsolicited_rrs(svc@, services.host(), ttl, include_ip, ifaces@, AF::is_v6()));
        let group = SocketAddr { ip: AF::mdns_group(), port: MDNS_PORT };
        self.emit(0, &out, group);
    }

    /// Carries out a command. Returns whether the engine goes on: `false` once told to
    /// stop. An announcement of a service whose names are not well formed is dropped.
    pub fn handle_command(&mut self, services: &ServicesInner, ifaces: &Vec<InterfaceAddress>, cmd: &Command) -> (r: bool)
        requires
            services.wf(),
        ensures
            match cmd {
                Command::Shutdown => !r && final(self).queue() == old(self).queue(),
                Command::SendUnsolicited { svc, ttl, include_ip } => r && final(self).queue() == old(
                    self,
                ).queue() + if svc.wf() {
                    datagram(
                        0,
                        unsolicited_rrs(svc@, services.host(), *ttl, *include_ip, ifaces@, AF::is_v6()),
                        group_addr(AF::is_v6()),
                    )
                } else {
                    Seq::empty()
                },
            },
    {
        match cmd {
            Command::Shutdown => false,
            Command::SendUnsolicited { svc, ttl, include_ip } => {
                if svc.validate() {
                    self.send_unsolicited(services, ifaces, svc, *ttl, *include_ip);
                } else {
                    assert(old(self).queue() + Seq::<(Seq<u8>, SocketAddr)>::empty() =~= old(self).queue());
                }
                true
            },
        }
    }

    /// Takes the oldest datagram off the queue.
    pub fn pop_outgoing(&mut self) -> (r: Option<(Vec<u8>, SocketAddr)>)
        ensures
            match r {
                Some(d) => old(self).queue().len() > 0 && (d.0@, d.1) == old(self).queue()[0]
                    && final(self).queue() == old(self).queue().drop_first(),
                None => old(self).queue().len() == 0 && final(self).queue() == old(self).queue(),
            },
    {
        let r = self.outgoing.pop_front();
        proof {
            if r.is_some() {
                assert(self.queue() =~= old(self).queue().drop_first());
            }
        }
        r
    }

    /// Decides what follows an attempt to send `d`, the datagram last taken off the queue.
    /// A socket that would block gets it back at the head of the queue and ends the round
    /// of sending; a datagram that was sent, or that failed, is gone, and sending goes on.
    pub fn after_send(&mut self, d: (Vec<u8>, SocketAddr), outcome: SendOutcome) -> (more: bool)
        ensures
            match outcome {
                SendOutcome::WouldBlock => !more && final(self).queue() == seq![(d.0@, d.1)] + old(self).queue(),
                _ => more && final(self).queue() == old(self).queue(),
            },
    {
        match outcome {
            SendOutcome::WouldBlock => {
                self.push_front_outgoing(d);
                false
            },
            _ => true,
        }
    }

    /// Puts a datagram that could not be sent yet back at the head of the queue.
    pub fn push_front_outgoing(&mut self, d: (Vec<u8>, SocketAddr))
        ensures
            final(self).queue() == seq![(d.0@, d.1)] + old(self).queue(),
    {
        let ghost dv = (d.0@, d.1);
        self.outgoing.push_front(d);
        assert(self.queue() =~= seq![dv] + old(self).queue());
    }
}

/// Every datagram queued for a response reads back as an authoritative response (QR and
/// AA set) with the response's id and exactly the answers it was built from.
pub proof fn lemma_datagram_parses(id: u16, rs: Seq<RecordModel>, dest: SocketAddr)
    ensures
        forall|k: int|
            0 <= k < datagram(id, rs, dest).len() ==> packet_of(#[trigger] datagram(id, rs, dest)[k].0)
                == Some(
                PacketModel {
                    header: response_header(id),
                    questions: Seq::<QuestionModel>::empty(),
                    answers: rs,
                    nameservers: Seq::<RecordModel>::empty(),
                    additional: Seq::<RecordModel>::empty(),
                },
            ),
{
    if datagram(id, rs, dest).len() > 0 {
        lemma_response_round_trip(id, rs);
    }
}

/// Every datagram that a received packet makes the engine queue reads back as a DNS
/// response (QR set) that is authoritative (AA set).
pub proof fn lemma_packet_datagrams_are_responses(
    b: Seq<u8>,
    addr: SocketAddr,
    es: crate::services::Entries,
    host: Seq<Seq<u8>>,
    ifs: Seq<InterfaceAddress>,
    v6: bool,
)
    ensures
        forall|k: int|
            0 <= k < packet_datagrams(b, addr, es, host, ifs, v6).len() ==> (packet_of(
                #[trigger] packet_datagrams(b, addr, es, host, ifs, v6)[k].0,
            ) matches Some(p) && !p.header.query && p.header.authoritative),
{
    match packet_of(b) {
        None => {},
        Some(p) => if p.header.query && !p.header.truncated {
            let (m, u) = routed_answers(es, host, p.questions, ifs, v6);
            let dm = datagram(p.header.id, m, group_addr(v6));
            let du = datagram(p.header.id, u, addr);
            lemma_datagram_parses(p.header.id, m, group_addr(v6));
            lemma_datagram_parses(p.header.id, u, addr);
            assert forall|k: int| 0 <= k < (dm + du).len() implies (packet_of(#[trigger] (dm + du)[k].0) matches Some(
                p,
            ) && !p.header.query && p.header.authoritative) by {
                if k < dm.len() {
                    assert((dm + du)[k] == dm[k]);
                } else {
                    assert((dm + du)[k] == du[k - dm.len()]);
                }
            }
        },
    }
}

/// A truncated query gets no response at all.
pub proof fn lemma_truncated_gets_nothing(
    b: Seq<u8>,
    addr: SocketAddr,
    es: crate::services::Entries,
    host: Seq<Seq<u8>>,
    ifs: Seq<InterfaceAddress>,
    v6: bool,
)
    requires
        packet_of(b) matches Some(p) && p.header.truncated,
    ensures
        packet_datagrams(b, addr, es, host, ifs, v6) == Seq::<(Seq<u8>, SocketAddr)>::empty(),
{
}

/// A packet that is a response, not a query, gets no response at all.
pub proof fn lemma_response_gets_nothing(
    b: Seq<u8>,
    addr: SocketAddr,
    es: crate::services::Entries,
    host: Seq<Seq<u8>>,
    ifs: Seq<InterfaceAddress>,
    v6: bool,
)
    requires
        packet_of(b) matches Some(p) && !p.header.query,
    ensures
        packet_datagrams(b, addr, es, host, ifs, v6) == Seq::<(Seq<u8>, SocketAddr)>::empty(),
{
}

/// A question whose class is neither IN nor any adds no answer to either response.
pub proof fn lemma_other_class_unanswered(
    es: crate::services::Entries,
    host: Seq<Seq<u8>>,
    qs: Seq<QuestionModel>,
    q: QuestionModel,
    ifs: Seq<InterfaceAddress>,
    v6: bool,
)
    requires
        q.qclass != CLASS_IN && q.qclass != CLASS_ANY,
    ensures
        routed_answers(es, host, qs.push(q), ifs, v6) == routed_answers(es, host, qs, ifs, v6),
{
    assert(qs.push(q).drop_last() =~= qs);
}

/// A PTR query for `_services._dns-sd._udp.local` is answered with one PTR record per
/// distinct registered type, pointing at that type.
pub proof fn lemma_meta_query_answers(
    es: crate::services::Entries,
    host: Seq<Seq<u8>>,
    q: QuestionModel,
    ifs: Seq<InterfaceAddress>,
    v6: bool,
)
    requires
        q.qtype == TYPE_PTR,
        same_name(q.qname, meta_name()),
    ensures
        answers(es, host, q, ifs, v6).len() == types_of(es).len(),
        forall|i: int|
            0 <= i < types_of(es).len() ==> (#[trigger] answers(es, host, q, ifs, v6)[i]) == (RecordModel {
                name: q.qname,
                cls: CLASS_IN,
                ttl: DEFAULT_TTL,
                data: DataModel::PTR(types_of(es)[i]),
            }),
{
}

/// The records `x` stand together, in order, in `rs` from `k` on.
pub open spec fn run_at(rs: Seq<RecordModel>, k: int, x: Seq<RecordModel>) -> bool {
    0 <= k && k + x.len() <= rs.len() && rs.subrange(k, k + x.len()) == x
}

/// The records `x` stand together, in order, somewhere in `rs`.
pub open spec fn holds_run(rs: Seq<RecordModel>, x: Seq<RecordModel>) -> bool {
    exists|k: int| run_at(rs, k, x)
}

/// A service's PTR, SRV and TXT records followed by the host's addresses.
pub open spec fn service_run(s: ServiceModel, host: Seq<Seq<u8>>, ifs: Seq<InterfaceAddress>, v6: bool) -> Seq<RecordModel> {
    seq![ptr_rr(s, DEFAULT_TTL), srv_rr(s, host, DEFAULT_TTL), txt_rr(s, DEFAULT_TTL)] + ip_rrs(host, ifs, DEFAULT_TTL, v6)
}

proof fn lemma_service_rrs_contain(
    svcs: Seq<ServiceModel>,
    host: Seq<Seq<u8>>,
    ifs: Seq<InterfaceAddress>,
    v6: bool,
    j: int,
)
    requires
        0 <= j < svcs.len(),
    ensures
        holds_run(service_rrs(svcs, host, ifs, v6), service_run(svcs[j], host, ifs, v6)),
    decreases svcs.len(),
{
    let ips = ip_rrs(host, ifs, DEFAULT_TTL, v6);
    let p = svcs.drop_last();
    let s = svcs.last();
    let x = service_run(svcs[j], host, ifs, v6);
    let three = seq![ptr_rr(s, DEFAULT_TTL), srv_rr(s, host, DEFAULT_TTL), txt_rr(s, DEFAULT_TTL)];
    let all = service_rrs(svcs, host, ifs, v6);
    let pre = service_rrs(p, host, ifs, v6);
    assert(all == pre + three + ips);
    if j == svcs.len() - 1 {
        let k = pre.len() as int;
        assert(all.subrange(k, k + x.len()) =~= three + ips);
        assert(run_at(all, k, x));
    } else {
        lemma_service_rrs_contain(p, host, ifs, v6, j);
        assert(p[j] == svcs[j]);
        let k = choose|k: int| run_at(pre, k, x);
        assert(all.subrange(k, k + x.len()) =~= pre.subrange(k, k + x.len()));
        assert(run_at(all, k, x));
    }
}

/// When some interface has a non-loopback address of the engine's family, the host has
/// at least one address record.
pub proof fn lemma_ip_rrs_nonempty(host: Seq<Seq<u8>>, ifs: Seq<InterfaceAddress>, ttl: u32, v6: bool, i: int)
    requires
        0 <= i < ifs.len(),
        ifs[i].ip matches Some(ip) && of_family(ip, v6),
        !ifs[i].loopback,
    ensures
        ip_rrs(host, ifs, ttl, v6).len() >= 1,
    decreases ifs.len(),
{
    if i < ifs.len() - 1 {
        assert(ifs.drop_last()[i] == ifs[i]);
        lemma_ip_rrs_nonempty(host, ifs.drop_last(), ttl, v6, i);
    }
}

proof fn lemma_of_type_contains(es: crate::services::Entries, t: Seq<Seq<u8>>, i: int)
    requires
        0 <= i < es.len(),
        same_name(es[i].1.typ, t),
    ensures
        exists|j: int| 0 <= j < of_type(es, t).len() && of_type(es, t)[j] == es[i].1,
    decreases es.len(),
{
    let p = es.drop_last();
    if i == es.len() - 1 {
        assert(of_type(es, t)[of_type(p, t).len() as int] == es[i].1);
    } else {
        assert(p[i] == es[i]);
        lemma_of_type_contains(p, t, i);
        let j = choose|j: int| 0 <= j < of_type(p, t).len() && of_type(p, t)[j] == p[i].1;
        assert(of_type(es, t)[j] == of_type(p, t)[j]);
    }
}

/// A PTR query for the type of a registered service is answered with that service's PTR,
/// SRV and TXT records, followed by the host's address records, all in one run.
pub proof fn lemma_ptr_query_answers_service(
    es: crate::services::Entries,
    host: Seq<Seq<u8>>,
    q: QuestionModel,
    ifs: Seq<InterfaceAddress>,
    v6: bool,
    i: int,
)
    requires
        0 <= i < es.len(),
        q.qtype == TYPE_PTR,
        !same_name(q.qname, meta_name()),
        same_name(es[i].1.typ, q.qname),
    ensures
        holds_run(answers(es, host, q, ifs, v6), service_run(es[i].1, host, ifs, v6)),
{
    lemma_of_type_contains(es, q.qname, i);
    let svcs = of_type(es, q.qname);
    let j = choose|j: int| 0 <= j < svcs.len() && svcs[j] == es[i].1;
    lemma_service_rrs_contain(svcs, host, ifs, v6, j);
}

/// An announcement without address records, such as the goodbye sent when a service
/// is removed, is always queued when its TXT payload is under 64000 bytes: its PTR, SRV
/// and TXT records then fit in one UDP datagram.
pub proof fn lemma_announcement_fits(s: ServiceModel, host: Seq<Seq<u8>>, ttl: u32, ifs: Seq<InterfaceAddress>, v6: bool)
    requires
        valid_labels(s.typ),
        valid_labels(s.name),
        valid_labels(host),
        s.txt.len() < 64000,
    ensures
        datagram(0, unsolicited_rrs(s, host, ttl, false, ifs, v6), group_addr(v6)) == seq![
            (enc_response(0, unsolicited_rrs(s, host, ttl, false, ifs, v6)), group_addr(v6)),
        ],
{
    let rs = unsolicited_rrs(s, host, ttl, false, ifs, v6);
    let a = ptr_rr(s, ttl);
    let b = srv_rr(s, host, ttl);
    let c = txt_rr(s, ttl);
    assert(rs =~= seq![a, b, c]);
    crate::dns::lemma_enc_name_len(s.typ);
    crate::dns::lemma_enc_name_len(s.name);
    crate::dns::lemma_enc_name_len(host);
    assert(record_well_formed(a) && record_well_formed(b) && record_well_formed(c));
    assert(crate::dns::response_fits(rs));
    let ra = crate::dns::enc_record(a);
    let rb = crate::dns::enc_record(b);
    let rc = crate::dns::enc_record(c);
    assert(ra.len() <= 255 + 10 + 255);
    assert(rb.len() <= 255 + 10 + 6 + 255);
    assert(rc.len() <= 255 + 10 + 64000);
    assert(rs.drop_first() =~= seq![b, c]);
    assert(rs.drop_first().drop_first() =~= seq![c]);
    assert(rs.drop_first().drop_first().drop_first() =~= Seq::<RecordModel>::empty());
    let r3 = rs.drop_first().drop_first();
    let r2 = rs.drop_first();
    assert(r3[0] == c && r2[0] == b && rs[0] == a);
    assert(crate::dns::enc_records(r3.drop_first()) == Seq::<u8>::empty());
    assert(crate::dns::enc_records(r3) == rc + Seq::<u8>::empty());
    assert(crate::dns::enc_records(r2) == rb + crate::dns::enc_records(r3));
    assert(crate::dns::enc_records(rs) == ra + crate::dns::enc_records(r2));
    assert(crate::dns::enc_records(rs).len() == ra.len() + rb.len() + rc.len());
    assert(enc_response(0, rs).len() <= MAX_PACKET_SIZE);
}

} // verus!
