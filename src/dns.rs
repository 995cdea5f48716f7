//! DNS messages: records, questions and packets, and the wire form of a response.
use vstd::prelude::*;
use crate::name::{valid_labels, wire_len, Name};

verus! {

pub const TYPE_A: u16 = 1;
pub const TYPE_PTR: u16 = 12;
pub const TYPE_TXT: u16 = 16;
pub const TYPE_AAAA: u16 = 28;
pub const TYPE_SRV: u16 = 33;
/// The query type that asks for every record.
pub const TYPE_ALL: u16 = 255;

/// The Internet class.
pub const CLASS_IN: u16 = 1;
/// The query class that matches every class.
pub const CLASS_ANY: u16 = 255;

/// An IP address as its bytes in network order.
#[derive(Clone, Copy, Debug, PartialEq, Eq)]
pub enum IpAddr {
    V4([u8; 4]),
    V6([u8; 16]),
}

/// An IP address and a UDP port.
#[derive(Clone, Copy, Debug, PartialEq, Eq)]
pub struct SocketAddr {
    pub ip: IpAddr,
    pub port: u16,
}

/// The data of a record.
pub enum RRData {
    A([u8; 4]),
    AAAA([u8; 16]),
    PTR(Name),
    SRV { priority: u16, weight: u16, port: u16, target: Name },
    TXT(Vec<u8>),
    /// A record of another type, kept as its raw bytes.
    Unknown { typ: u16, data: Vec<u8> },
}

/// A resource record.
pub struct ResourceRecord {
    pub name: Name,
    pub cls: u16,
    pub ttl: u32,
    pub data: RRData,
}

/// A question of the query section. `qclass` is the class without its top bit,
/// which is `qu`, the request for a unicast answer.
pub struct Question {
    pub qname: Name,
    pub qtype: u16,
    pub qclass: u16,
    pub qu: bool,
}

/// The fixed header of a DNS message.
#[derive(Clone, Copy, Debug, PartialEq, Eq, Structural)]
pub struct Header {
    pub id: u16,
    /// The message is a query (the QR bit is clear).
    pub query: bool,
    pub opcode: u8,
    pub authoritative: bool,
    pub truncated: bool,
    pub recursion_desired: bool,
    pub recursion_available: bool,
    pub response_code: u8,
}

/// A parsed DNS message.
pub struct Packet {
    pub header: Header,
    pub questions: Vec<Question>,
    pub answers: Vec<ResourceRecord>,
    pub nameservers: Vec<ResourceRecord>,
    pub additional: Vec<ResourceRecord>,
}

/// What the data of a record stands for.
pub enum DataModel {
    A(Seq<u8>),
    AAAA(Seq<u8>),
    PTR(Seq<Seq<u8>>),
    SRV(u16, u16, u16, Seq<Seq<u8>>),
    TXT(Seq<u8>),
    Unknown(u16, Seq<u8>),
}

/// What a record stands for.
pub struct RecordModel {
    pub name: Seq<Seq<u8>>,
    pub cls: u16,
    pub ttl: u32,
    pub data: DataModel,
}

/// What a question stands for.
pub struct QuestionModel {
    pub qname: Seq<Seq<u8>>,
    pub qtype: u16,
    pub qclass: u16,
    pub qu: bool,
}

/// What a packet stands for.
pub struct PacketModel {
    pub header: Header,
    pub questions: Seq<QuestionModel>,
    pub answers: Seq<RecordModel>,
    pub nameservers: Seq<RecordModel>,
    pub additional: Seq<RecordModel>,
}

impl View for RRData {
    type V = DataModel;

    open spec fn view(&self) -> DataModel {
        match self {
            RRData::A(a) => DataModel::A(a@),
            RRData::AAAA(a) => DataModel::AAAA(a@),
            RRData::PTR(n) => DataModel::PTR(n@),
            RRData::SRV { priority, weight, port, target } => DataModel::SRV(
                *priority,
                *weight,
                *port,
                target@,
            ),
            RRData::TXT(t) => DataModel::TXT(t@),
            RRData::Unknown { typ, data } => DataModel::Unknown(*typ, data@),
        }
    }
}

impl View for ResourceRecord {
    type V = RecordModel;

    open spec fn view(&self) -> RecordModel {
        RecordModel { name: self.name@, cls: self.cls, ttl: self.ttl, data: self.data@ }
    }
}

impl View for Question {
    type V = QuestionModel;

    open spec fn view(&self) -> QuestionModel {
        QuestionModel { qname: self.qname@, qtype: self.qtype, qclass: self.qclass, qu: self.qu }
    }
}

impl View for Packet {
    type V = PacketModel;

    open spec fn view(&self) -> PacketModel {
        PacketModel {
            header: self.header,
            questions: self.questions@.map_values(|q: Question| q@),
            answers: self.answers@.map_values(|r: ResourceRecord| r@),
            nameservers: self.nameservers@.map_values(|r: ResourceRecord| r@),
            additional: self.additional@.map_values(|r: ResourceRecord| r@),
        }
    }
}

/// The type code of record data.
pub open spec fn data_type(d: DataModel) -> u16 {
    match d {
        DataModel::A(_) => TYPE_A,
        DataModel::AAAA(_) => TYPE_AAAA,
        DataModel::PTR(_) => TYPE_PTR,
        DataModel::SRV(..) => TYPE_SRV,
        DataModel::TXT(_) => TYPE_TXT,
        DataModel::Unknown(t, _) => t,
    }
}

/// Two bytes, most significant first.
pub open spec fn be16(x: u16) -> Seq<u8> {
    seq![(x / 256) as u8, (x % 256) as u8]
}

/// Four bytes, most significant first.
pub open spec fn be32(x: u32) -> Seq<u8> {
    be16((x / 65536) as u16) + be16((x % 65536) as u16)
}

/// The labels of a name on the wire, each behind its length, without the final zero.
pub open spec fn enc_labels(ls: Seq<Seq<u8>>) -> Seq<u8>
    decreases ls.len(),
{
    if ls.len() == 0 {
        Seq::empty()
    } else {
        seq![ls[0].len() as u8] + ls[0] + enc_labels(ls.drop_first())
    }
}

/// A name on the wire, uncompressed.
pub open spec fn enc_name(ls: Seq<Seq<u8>>) -> Seq<u8> {
    enc_labels(ls) + seq![0u8]
}

/// Record data on the wire.
pub open spec fn enc_data(d: DataModel) -> Seq<u8> {
    match d {
        DataModel::A(a) => a,
        DataModel::AAAA(a) => a,
        DataModel::PTR(n) => enc_name(n),
        DataModel::SRV(p, w, port, t) => be16(p) + be16(w) + be16(port) + enc_name(t),
        DataModel::TXT(t) => t,
        DataModel::Unknown(_, b) => b,
    }
}

/// A record on the wire.
pub open spec fn enc_record(r: RecordModel) -> Seq<u8> {
    enc_name(r.name) + be16(data_type(r.data)) + be16(r.cls) + be32(r.ttl) + be16(
        enc_data(r.data).len() as u16,
    ) + enc_data(r.data)
}

/// Records on the wire, one after the other.
pub open spec fn enc_records(rs: Seq<RecordModel>) -> Seq<u8>
    decreases rs.len(),
{
    if rs.len() == 0 {
        Seq::empty()
    } else {
        enc_record(rs[0]) + enc_records(rs.drop_first())
    }
}

/// The flags of every response this responder sends: QR and AA set, nothing else.
pub const RESPONSE_FLAGS_HI: u8 = 0x84;

/// An authoritative response with the given id and answers, and no other section.
pub open spec fn enc_response(id: u16, rs: Seq<RecordModel>) -> Seq<u8> {
    be16(id) + seq![RESPONSE_FLAGS_HI, 0u8] + be16(0) + be16(rs.len() as u16) + be16(0) + be16(0)
        + enc_records(rs)
}

/// Record data that the wire format can hold: names well formed, at most 65535 bytes.
pub open spec fn data_fits(d: DataModel) -> bool {
    data_well_formed(d) && enc_data(d).len() <= 65535
}

/// Record data whose names are well formed and whose addresses have their length.
pub open spec fn data_well_formed(d: DataModel) -> bool {
    match d {
        DataModel::A(a) => a.len() == 4,
        DataModel::AAAA(a) => a.len() == 16,
        DataModel::PTR(n) => valid_labels(n),
        DataModel::SRV(_, _, _, t) => valid_labels(t),
        DataModel::TXT(_) => true,
        DataModel::Unknown(t, _) => t != TYPE_A && t != TYPE_AAAA && t != TYPE_PTR && t
            != TYPE_SRV && t != TYPE_TXT,
    }
}

/// A record whose names are well formed.
pub open spec fn record_well_formed(r: RecordModel) -> bool {
    valid_labels(r.name) && data_well_formed(r.data)
}

/// A record that the wire format can hold.
pub open spec fn record_fits(r: RecordModel) -> bool {
    valid_labels(r.name) && data_fits(r.data)
}

/// A response that the wire format can hold.
pub open spec fn response_fits(rs: Seq<RecordModel>) -> bool {
    rs.len() <= 65535 && forall|i: int| 0 <= i < rs.len() ==> record_fits(#[trigger] rs[i])
}

fn push_u16(out: &mut Vec<u8>, x: u16)
    ensures
        final(out)@ == old(out)@ + be16(x),
{
    out.push((x / 256) as u8);
    out.push((x % 256) as u8);
    assert(final(out)@ =~= old(out)@ + be16(x));
}

fn push_u32(out: &mut Vec<u8>, x: u32)
    ensures
        final(out)@ == old(out)@ + be32(x),
{
    push_u16(out, (x / 65536) as u16);
    push_u16(out, (x % 65536) as u16);
    assert(final(out)@ =~= old(out)@ + be32(x));
}

fn push_bytes(out: &mut Vec<u8>, b: &[u8])
    ensures
        final(out)@ == old(out)@ + b@,
{
    let mut i: usize = 0;
    while i < b.len()
        invariant
            0 <= i <= b@.len(),
            out@ =~= old(out)@ + b@.subrange(0, i as int),
        decreases b@.len() - i,
    {
        out.push(b[i]);
        i = i + 1;
    }
    assert(b@.subrange(0, b@.len() as int) == b@);
}

proof fn lemma_enc_labels_push(ls: Seq<Seq<u8>>, l: Seq<u8>)
    ensures
        enc_labels(ls.push(l)) == enc_labels(ls) + seq![l.len() as u8] + l,
    decreases ls.len(),
{
    if ls.len() == 0 {
        assert(ls.push(l).drop_first() =~= Seq::<Seq<u8>>::empty());
        assert(ls.push(l)[0] == l);
        assert(enc_labels(Seq::<Seq<u8>>::empty()) == Seq::<u8>::empty());
        assert(enc_labels(ls.push(l)) =~= seq![l.len() as u8] + l);
    } else {
        lemma_enc_labels_push(ls.drop_first(), l);
        assert(ls.push(l).drop_first() =~= ls.drop_first().push(l));
        assert(ls.push(l)[0] == ls[0]);
        assert(enc_labels(ls.push(l)) =~= enc_labels(ls) + seq![l.len() as u8] + l);
    }
}

/// A name's uncompressed wire form is as long as `wire_len` says, so at most 255 bytes.
pub proof fn lemma_enc_name_len(ls: Seq<Seq<u8>>)
    ensures
        enc_name(ls).len() == wire_len(ls),
    decreases ls.len(),
{
    if ls.len() > 0 {
        let p = ls.drop_last();
        lemma_enc_name_len(p);
        lemma_enc_labels_push(p, ls.last());
        assert(p.push(ls.last()) =~= ls);
    }
}

proof fn lemma_enc_records_push(rs: Seq<RecordModel>, r: RecordModel)
    ensures
        enc_records(rs.push(r)) == enc_records(rs) + enc_record(r),
    decreases rs.len(),
{
    if rs.len() == 0 {
        assert(rs.push(r).drop_first() =~= Seq::<RecordModel>::empty());
        assert(rs.push(r)[0] == r);
        assert(enc_records(Seq::<RecordModel>::empty()) == Seq::<u8>::empty());
        assert(enc_records(rs.push(r)) =~= enc_record(r));
    } else {
        lemma_enc_records_push(rs.drop_first(), r);
        assert(rs.push(r).drop_first() =~= rs.drop_first().push(r));
        assert(rs.push(r)[0] == rs[0]);
        assert(enc_records(rs.push(r)) =~= enc_records(rs) + enc_record(r));
    }
}

/// Appends a name in its uncompressed wire form.
pub fn push_name(out: &mut Vec<u8>, n: &Name)
    requires
        n.wf(),
    ensures
        final(out)@ == old(out)@ + enc_name(n@),
{
    let mut i: usize = 0;
    while i < n.labels.len()
        invariant
            n.wf(),
            0 <= i <= n@.len(),
            out@ == old(out)@ + enc_labels(n@.subrange(0, i as int)),
        decreases n@.len() - i,
    {
        let l = &n.labels[i];
        assert(n@[i as int] == l@);
        assert(crate::name::valid_label(n@[i as int]));
        out.push(l.len() as u8);
        push_bytes(out, l.as_slice());
        proof {
            lemma_enc_labels_push(n@.subrange(0, i as int), l@);
            assert(n@.subrange(0, i + 1) =~= n@.subrange(0, i as int).push(l@));
        }
        i = i + 1;
    }
    out.push(0);
    assert(n@.subrange(0, n@.len() as int) == n@);
}

/// The data of a record in its wire form.
pub fn encode_data(d: &RRData) -> (r: Vec<u8>)
    requires
        data_well_formed(d@),
    ensures
        r@ == enc_data(d@),
{
    let mut out: Vec<u8> = Vec::new();
    match d {
        RRData::A(a) => push_bytes(&mut out, a.as_slice()),
        RRData::AAAA(a) => push_bytes(&mut out, a.as_slice()),
        RRData::PTR(n) => push_name(&mut out, n),
        RRData::SRV { priority, weight, port, target } => {
            push_u16(&mut out, *priority);
            push_u16(&mut out, *weight);
            push_u16(&mut out, *port);
            push_name(&mut out, target);
        },
        RRData::TXT(t) => push_bytes(&mut out, t.as_slice()),
        RRData::Unknown { typ, data } => push_bytes(&mut out, data.as_slice()),
    }
    assert(out@ =~= enc_data(d@));
    out
}

/// The type code of a record's data.
pub fn type_code(d: &RRData) -> (r: u16)
    ensures
        r == data_type(d@),
{
    match d {
        RRData::A(_) => TYPE_A,
        RRData::AAAA(_) => TYPE_AAAA,
        RRData::PTR(_) => TYPE_PTR,
        RRData::SRV { .. } => TYPE_SRV,
        RRData::TXT(_) => TYPE_TXT,
        RRData::Unknown { typ, .. } => *typ,
    }
}

/// Encodes an authoritative response with the given id and answers. `None` when the
/// wire format cannot hold it: more than 65535 answers, or record data over 65535 bytes.
pub fn encode_response(id: u16, answers: &Vec<ResourceRecord>) -> (r: Option<Vec<u8>>)
    requires
        forall|i: int| 0 <= i < answers@.len() ==> record_well_formed(#[trigger] answers@[i]@),
    ensures
        ({
            let rs = answers@.map_values(|a: ResourceRecord| a@);
            match r {
                Some(b) => response_fits(rs) && b@ == enc_response(id, rs),
                None => !response_fits(rs),
            }
        }),
{
    let ghost rs = answers@.map_values(|a: ResourceRecord| a@);
    if answers.len() > 65535 {
        return None;
    }
    let mut out: Vec<u8> = Vec::new();
    push_u16(&mut out, id);
    out.push(RESPONSE_FLAGS_HI);
    out.push(0);
    push_u16(&mut out, 0);
    push_u16(&mut out, answers.len() as u16);
    push_u16(&mut out, 0);
    push_u16(&mut out, 0);
    let ghost head = out@;
    let mut i: usize = 0;
    while i < answers.len()
        invariant
            0 <= i <= answers@.len() <= 65535,
            rs == answers@.map_values(|a: ResourceRecord| a@),
            forall|j: int| 0 <= j < answers@.len() ==> record_well_formed(#[trigger] answers@[j]@),
            forall|j: int| 0 <= j < i ==> record_fits(#[trigger] rs[j]),
            out@ == head + enc_records(rs.subrange(0, i as int)),
        decreases answers@.len() - i,
    {
        let a = &answers[i];
        assert(rs[i as int] == a@);
        assert(record_well_formed(answers@[i as int]@));
        let rd = encode_data(&a.data);
        if rd.len() > 65535 {
            assert(!record_fits(rs[i as int]));
            return None;
        }
        let ghost before = out@;
        push_name(&mut out, &a.name);
        push_u16(&mut out, type_code(&a.data));
        push_u16(&mut out, a.cls);
        push_u32(&mut out, a.ttl);
        push_u16(&mut out, rd.len() as u16);
        push_bytes(&mut out, rd.as_slice());
        proof {
            assert(out@ =~= before + enc_record(a@));
            lemma_enc_records_push(rs.subrange(0, i as int), a@);
            assert(rs.subrange(0, i + 1) =~= rs.subrange(0, i as int).push(a@));
        }
        i = i + 1;
    }
    assert(rs.subrange(0, rs.len() as int) == rs);
    assert(out@ =~= enc_response(id, rs));
    Some(out)
}

} // verus!
