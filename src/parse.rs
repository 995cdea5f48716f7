//! Reading DNS messages from their wire form, compressed names included.
use vstd::prelude::*;
use crate::dns::{
    DataModel, Header, Packet, PacketModel, Question, QuestionModel, RRData, RecordModel,
    ResourceRecord, TYPE_A, TYPE_AAAA, TYPE_PTR, TYPE_SRV, TYPE_TXT,
};
use crate::name::{dot_free, valid_labels, Name, DOT};

verus! {

/// Why a packet could not be read.
#[derive(Clone, Copy, Debug, PartialEq, Eq, Structural)]
pub struct ParseError {
    /// Where in the packet reading stopped.
    pub offset: usize,
}

/// The largest UDP payload, and so the largest message.
pub const MAX_PACKET_SIZE: usize = 65535;

/// Questions read so far, followed by what reading the rest gives.
pub open spec fn after_questions(
    acc: Seq<QuestionModel>,
    r: Option<(Seq<QuestionModel>, int)>,
) -> Option<(Seq<QuestionModel>, int)> {
    match r {
        Some((qs, p)) => Some((acc + qs, p)),
        None => None,
    }
}

/// Records read so far, followed by what reading the rest gives.
pub open spec fn after_records(acc: Seq<RecordModel>, r: Option<(Seq<RecordModel>, int)>) -> Option<
    (Seq<RecordModel>, int),
> {
    match r {
        Some((rs, p)) => Some((acc + rs, p)),
        None => None,
    }
}

/// Two bytes read most significant first.
pub open spec fn u16_at(b: Seq<u8>, p: int) -> u16 {
    (b[p] as int * 256 + b[p + 1] as int) as u16
}

/// Four bytes read most significant first.
pub open spec fn u32_at(b: Seq<u8>, p: int) -> u32 {
    (u16_at(b, p) as int * 65536 + u16_at(b, p + 2) as int) as u32
}

/// The label holds no dot.
pub open spec fn no_dot(l: Seq<u8>) -> bool {
    forall|k: int| 0 <= k < l.len() ==> l[k] != DOT
}

/// The labels of the name that starts at `pos`. A compression pointer must point
/// before `seg`, the start of the run of labels that holds it, so reading always ends.
pub open spec fn labels_at(b: Seq<u8>, seg: nat, pos: int) -> Option<Seq<Seq<u8>>>
    decreases seg, b.len() - pos,
{
    if pos < 0 || pos >= b.len() {
        None
    } else if b[pos] == 0 {
        Some(Seq::empty())
    } else if b[pos] >= 192 {
        if pos + 1 >= b.len() {
            None
        } else {
            let t = (b[pos] - 192) * 256 + b[pos + 1];
            if 0 <= t < seg {
                labels_at(b, t as nat, t)
            } else {
                None
            }
        }
    } else if b[pos] > 63 || pos + 1 + b[pos] > b.len() {
        None
    } else {
        let l = b.subrange(pos + 1, pos + 1 + b[pos]);
        if !no_dot(l) {
            None
        } else {
            match labels_at(b, seg, pos + 1 + b[pos]) {
                Some(rest) => Some(seq![l] + rest),
                None => None,
            }
        }
    }
}

/// Where the bytes of the name at `pos` end: after its zero byte or its first pointer.
pub open spec fn name_end(b: Seq<u8>, pos: int) -> int
    decreases b.len() - pos,
{
    if pos < 0 || pos >= b.len() {
        -1
    } else if b[pos] == 0 {
        pos + 1
    } else if b[pos] >= 192 {
        pos + 2
    } else if b[pos] > 63 || pos + 1 + b[pos] > b.len() {
        -1
    } else {
        name_end(b, pos + 1 + b[pos])
    }
}

/// The well-formed name at `pos`, and where it ends.
pub open spec fn name_at(b: Seq<u8>, pos: int) -> Option<(Seq<Seq<u8>>, int)> {
    if pos < 0 {
        None
    } else {
        match labels_at(b, pos as nat, pos) {
            Some(ls) => if valid_labels(ls) {
                Some((ls, name_end(b, pos)))
            } else {
                None
            },
            None => None,
        }
    }
}

/// The question at `pos`, and where it ends.
pub open spec fn question_at(b: Seq<u8>, pos: int) -> Option<(QuestionModel, int)> {
    match name_at(b, pos) {
        Some((n, e)) => if e + 4 > b.len() {
            None
        } else {
            let cls = u16_at(b, e + 2);
            Some(
                (
                    QuestionModel {
                        qname: n,
                        qtype: u16_at(b, e),
                        qclass: (cls % 32768) as u16,
                        qu: cls >= 32768,
                    },
                    e + 4,
                ),
            )
        },
        None => None,
    }
}

/// `n` questions from `pos` on, and where they end.
pub open spec fn questions_at(b: Seq<u8>, pos: int, n: nat) -> Option<(Seq<QuestionModel>, int)>
    decreases n,
{
    if n == 0 {
        Some((Seq::empty(), pos))
    } else {
        match question_at(b, pos) {
            Some((q, p)) => match questions_at(b, p, (n - 1) as nat) {
                Some((qs, end)) => Some((seq![q] + qs, end)),
                None => None,
            },
            None => None,
        }
    }
}

/// The data of a record of type `typ` held in `len` bytes from `start`.
pub open spec fn data_at(b: Seq<u8>, typ: u16, start: int, len: int) -> Option<DataModel> {
    let raw = b.subrange(start, start + len);
    if typ == TYPE_A {
        if len == 4 {
            Some(DataModel::A(raw))
        } else {
            None
        }
    } else if typ == TYPE_AAAA {
        if len == 16 {
            Some(DataModel::AAAA(raw))
        } else {
            None
        }
    } else if typ == TYPE_PTR {
        match name_at(b, start) {
            Some((n, e)) => if e == start + len {
                Some(DataModel::PTR(n))
            } else {
                None
            },
            None => None,
        }
    } else if typ == TYPE_SRV {
        if len < 7 {
            None
        } else {
            match name_at(b, start + 6) {
                Some((n, e)) => if e == start + len {
                    Some(
                        DataModel::SRV(
                            u16_at(b, start),
                            u16_at(b, start + 2),
                            u16_at(b, start + 4),
                            n,
                        ),
                    )
                } else {
                    None
                },
                None => None,
            }
        }
    } else if typ == TYPE_TXT {
        Some(DataModel::TXT(raw))
    } else {
        Some(DataModel::Unknown(typ, raw))
    }
}

/// The record at `pos`, and where it ends.
pub open spec fn record_at(b: Seq<u8>, pos: int) -> Option<(RecordModel, int)> {
    match name_at(b, pos) {
        Some((n, e)) => if e + 10 > b.len() || e + 10 + u16_at(b, e + 8) > b.len() {
            None
        } else {
            let len = u16_at(b, e + 8) as int;
            match data_at(b, u16_at(b, e), e + 10, len) {
                Some(d) => Some(
                    (RecordModel { name: n, cls: u16_at(b, e + 2), ttl: u32_at(b, e + 4), data: d }, e
                        + 10 + len),
                ),
                None => None,
            }
        },
        None => None,
    }
}

/// `n` records from `pos` on, and where they end.
pub open spec fn records_at(b: Seq<u8>, pos: int, n: nat) -> Option<(Seq<RecordModel>, int)>
    decreases n,
{
    if n == 0 {
        Some((Seq::empty(), pos))
    } else {
        match record_at(b, pos) {
            Some((r, p)) => match records_at(b, p, (n - 1) as nat) {
                Some((rs, end)) => Some((seq![r] + rs, end)),
                None => None,
            },
            None => None,
        }
    }
}

/// The header in the first twelve bytes.
pub open spec fn header_of(b: Seq<u8>) -> Header {
    Header {
        id: u16_at(b, 0),
        query: b[2] & 0x80 == 0,
        opcode: (b[2] >> 3u8) & 0x0f,
        authoritative: b[2] & 0x04 != 0,
        truncated: b[2] & 0x02 != 0,
        recursion_desired: b[2] & 0x01 != 0,
        recursion_available: b[3] & 0x80 != 0,
        response_code: b[3] & 0x0f,
    }
}

/// The message that the bytes hold, if they hold one; bytes after its last section
/// are ignored.
pub open spec fn packet_of(b: Seq<u8>) -> Option<PacketModel> {
    if b.len() < 12 || b.len() > MAX_PACKET_SIZE {
        None
    } else {
        match questions_at(b, 12, u16_at(b, 4) as nat) {
            Some((qs, q_end)) => match records_at(b, q_end, u16_at(b, 6) as nat) {
                Some((an, an_end)) => match records_at(b, an_end, u16_at(b, 8) as nat) {
                    Some((ns, ns_end)) => match records_at(b, ns_end, u16_at(b, 10) as nat) {
                        Some((ar, _)) => Some(
                            PacketModel {
                                header: header_of(b),
                                questions: qs,
                                answers: an,
                                nameservers: ns,
                                additional: ar,
                            },
                        ),
                        None => None,
                    },
                    None => None,
                },
                None => None,
            },
            None => None,
        }
    }
}

proof fn lemma_labels_dot_free(b: Seq<u8>, seg: nat, pos: int)
    requires
        labels_at(b, seg, pos).is_some(),
    ensures
        dot_free(labels_at(b, seg, pos).unwrap()),
    decreases seg, b.len() - pos,
{
    if pos >= 0 && pos < b.len() && b[pos] != 0 {
        if b[pos] >= 192 {
            let t = (b[pos] - 192) * 256 + b[pos + 1];
            lemma_labels_dot_free(b, t as nat, t);
        } else {
            let l = b.subrange(pos + 1, pos + 1 + b[pos]);
            let next = pos + 1 + b[pos];
            lemma_labels_dot_free(b, seg, next);
            let rest = labels_at(b, seg, next).unwrap();
            let all = seq![l] + rest;
            assert forall|i: int, k: int| 0 <= i < all.len() && 0 <= k < all[i].len() implies all[i][k]
                != DOT by {
                if i > 0 {
                    assert(all[i] == rest[i - 1]);
                }
            }
        }
    }
}

fn read_u16(b: &[u8], p: usize) -> (r: u16)
    requires
        p + 1 < b@.len(),
    ensures
        r == u16_at(b@, p as int),
{
    (b[p] as u16) * 256 + (b[p + 1] as u16)
}

fn read_u32(b: &[u8], p: usize) -> (r: u32)
    requires
        p + 3 < b@.len() <= usize::MAX,
    ensures
        r == u32_at(b@, p as int),
{
    (read_u16(b, p) as u32) * 65536 + (read_u16(b, p + 2) as u32)
}

fn read_bytes(b: &[u8], start: usize, len: usize) -> (r: Vec<u8>)
    requires
        start + len <= b@.len() <= usize::MAX,
    ensures
        r@ == b@.subrange(start as int, start + len),
{
    let mut r: Vec<u8> = Vec::new();
    let mut i: usize = 0;
    while i < len
        invariant
            start + len <= b@.len() <= usize::MAX,
            0 <= i <= len,
            r@ =~= b@.subrange(start as int, start + i),
        decreases len - i,
    {
        r.push(b[start + i]);
        i = i + 1;
    }
    r
}

fn read_label(b: &[u8], start: usize, len: usize) -> (r: Option<Vec<u8>>)
    requires
        start + len <= b@.len() <= usize::MAX,
    ensures
        match r {
            Some(l) => l@ == b@.subrange(start as int, start + len) && no_dot(l@),
            None => !no_dot(b@.subrange(start as int, start + len)),
        },
{
    let mut r: Vec<u8> = Vec::new();
    let mut i: usize = 0;
    while i < len
        invariant
            start + len <= b@.len() <= usize::MAX,
            0 <= i <= len,
            r@ =~= b@.subrange(start as int, start + i),
            no_dot(r@),
        decreases len - i,
    {
        if b[start + i] == DOT {
            assert(b@.subrange(start as int, start + len)[i as int] == DOT);
            return None;
        }
        r.push(b[start + i]);
        i = i + 1;
    }
    Some(r)
}

fn read_labels(b: &[u8], seg: usize, pos: usize) -> (r: Option<(Vec<Vec<u8>>, usize)>)
    requires
        b@.len() <= usize::MAX - 256,
    ensures
        match r {
            Some((ls, e)) => labels_at(b@, seg as nat, pos as int) == Some(
                ls@.map_values(|l: Vec<u8>| l@),
            ) && e == name_end(b@, pos as int) && e <= b@.len(),
            None => labels_at(b@, seg as nat, pos as int).is_none(),
        },
    decreases seg, b@.len() - pos,
{
    if pos >= b.len() {
        return None;
    }
    let len = b[pos];
    if len == 0 {
        let v: Vec<Vec<u8>> = Vec::new();
        assert(v@.map_values(|l: Vec<u8>| l@) =~= Seq::<Seq<u8>>::empty());
        return Some((v, pos + 1));
    }
    if len >= 192 {
        if pos + 1 >= b.len() {
            return None;
        }
        let t: usize = ((len - 192) as usize) * 256 + (b[pos + 1] as usize);
        if t < seg {
            return match read_labels(b, t, t) {
                Some((ls, _)) => Some((ls, pos + 2)),
                None => None,
            };
        }
        return None;
    }
    if len > 63 || pos + 1 + (len as usize) > b.len() {
        return None;
    }
    let next = pos + 1 + (len as usize);
    match read_label(b, pos + 1, len as usize) {
        None => None,
        Some(l) => match read_labels(b, seg, next) {
            None => None,
            Some((rest, e)) => {
                let ghost rv = rest@.map_values(|x: Vec<u8>| x@);
                let mut ls = rest;
                ls.insert(0, l);
                proof {
                    assert(ls@.map_values(|x: Vec<u8>| x@) =~= seq![l@] + rv);
                }
                Some((ls, e))
            },
        },
    }
}

/// Reads the well-formed name at `pos`.
fn read_name(b: &[u8], pos: usize) -> (r: Option<(Name, usize)>)
    requires
        b@.len() <= usize::MAX - 256,
    ensures
        match r {
            Some((n, e)) => name_at(b@, pos as int) == Some((n@, e as int)) && n.wf() && e
                <= b@.len(),
            None => name_at(b@, pos as int).is_none(),
        },
{
    match read_labels(b, pos, pos) {
        None => None,
        Some((labels, e)) => {
            let n = Name { labels };
            proof {
                lemma_labels_dot_free(b@, pos as nat, pos as int);
            }
            if n.is_well_formed() {
                Some((n, e))
            } else {
                None
            }
        },
    }
}

fn read_question(b: &[u8], pos: usize) -> (r: Option<(Question, usize)>)
    requires
        b@.len() <= MAX_PACKET_SIZE,
    ensures
        match r {
            Some((q, e)) => question_at(b@, pos as int) == Some((q@, e as int)) && q.qname.wf() && e
                <= b@.len(),
            None => question_at(b@, pos as int).is_none(),
        },
{
    match read_name(b, pos) {
        None => None,
        Some((qname, e)) => {
            if e + 4 > b.len() {
                return None;
            }
            let qtype = read_u16(b, e);
            let cls = read_u16(b, e + 2);
            let q = Question { qname, qtype, qclass: cls % 32768, qu: cls >= 32768 };
            Some((q, e + 4))
        },
    }
}

fn read_questions(b: &[u8], pos: usize, n: u16) -> (r: Option<(Vec<Question>, usize)>)
    requires
        b@.len() <= MAX_PACKET_SIZE,
        pos <= b@.len(),
    ensures
        match r {
            Some((qs, e)) => questions_at(b@, pos as int, n as nat) == Some(
                (qs@.map_values(|q: Question| q@), e as int),
            ) && e <= b@.len() && forall|i: int| 0 <= i < qs@.len() ==> (#[trigger] qs@[i]).qname.wf(),
            None => questions_at(b@, pos as int, n as nat).is_none(),
        },
{
    let mut acc: Vec<Question> = Vec::new();
    let mut p = pos;
    let mut i: u16 = 0;
    assert(acc@.map_values(|q: Question| q@) + Seq::<QuestionModel>::empty() =~= Seq::<QuestionModel>::empty());
    while i < n
        invariant
            b@.len() <= MAX_PACKET_SIZE,
            0 <= i <= n,
            p <= b@.len(),
            questions_at(b@, pos as int, n as nat) == after_questions(
                acc@.map_values(|q: Question| q@),
                questions_at(b@, p as int, (n - i) as nat),
            ),
            forall|j: int| 0 <= j < acc@.len() ==> (#[trigger] acc@[j]).qname.wf(),
        decreases n - i,
    {
        let ghost before = acc@.map_values(|q: Question| q@);
        match read_question(b, p) {
            None => {
                return None;
            },
            Some((q, e)) => {
                let ghost qm = q@;
                acc.push(q);
                proof {
                    assert(acc@.map_values(|q: Question| q@) =~= before.push(qm));
                    match questions_at(b@, e as int, (n - i - 1) as nat) {
                        Some((qs, end)) => {
                            assert(before + (seq![qm] + qs) =~= before.push(qm) + qs);
                        },
                        None => {},
                    }
                }
                p = e;
            },
        }
        i = i + 1;
    }
    proof {
        assert(acc@.map_values(|q: Question| q@) + Seq::<QuestionModel>::empty() =~= acc@.map_values(|q: Question| q@));
    }
    Some((acc, p))
}

fn read_data(b: &[u8], typ: u16, start: usize, len: usize) -> (r: Option<RRData>)
    requires
        b@.len() <= MAX_PACKET_SIZE,
        start + len <= b@.len(),
    ensures
        match r {
            Some(d) => data_at(b@, typ, start as int, len as int) == Some(d@)
                && crate::dns::data_well_formed(d@),
            None => data_at(b@, typ, start as int, len as int).is_none(),
        },
{
    if typ == TYPE_A {
        if len != 4 {
            return None;
        }
        let a: [u8; 4] = [b[start], b[start + 1], b[start + 2], b[start + 3]];
        assert(a@ =~= b@.subrange(start as int, start + len));
        Some(RRData::A(a))
    } else if typ == TYPE_AAAA {
        if len != 16 {
            return None;
        }
        let a: [u8; 16] = [
            b[start], b[start + 1], b[start + 2], b[start + 3],
            b[start + 4], b[start + 5], b[start + 6], b[start + 7],
            b[start + 8], b[start + 9], b[start + 10], b[start + 11],
            b[start + 12], b[start + 13], b[start + 14], b[start + 15],
        ];
        assert(a@ =~= b@.subrange(start as int, start + len));
        Some(RRData::AAAA(a))
    } else if typ == TYPE_PTR {
        match read_name(b, start) {
            Some((n, e)) => if e == start + len {
                Some(RRData::PTR(n))
            } else {
                None
            },
            None => None,
        }
    } else if typ == TYPE_SRV {
        if len < 7 {
            return None;
        }
        match read_name(b, start + 6) {
            Some((target, e)) => if e == start + len {
                Some(
                    RRData::SRV {
                        priority: read_u16(b, start),
                        weight: read_u16(b, start + 2),
                        port: read_u16(b, start + 4),
                        target,
                    },
                )
            } else {
                None
            },
            None => None,
        }
    } else if typ == TYPE_TXT {
        Some(RRData::TXT(read_bytes(b, start, len)))
    } else {
        Some(RRData::Unknown { typ, data: read_bytes(b, start, len) })
    }
}

fn read_record(b: &[u8], pos: usize) -> (r: Option<(ResourceRecord, usize)>)
    requires
        b@.len() <= MAX_PACKET_SIZE,
    ensures
        match r {
            Some((rr, e)) => record_at(b@, pos as int) == Some((rr@, e as int)) && e <= b@.len()
                && crate::dns::record_well_formed(rr@),
            None => record_at(b@, pos as int).is_none(),
        },
{
    match read_name(b, pos) {
        None => None,
        Some((name, e)) => {
            if e + 10 > b.len() {
                return None;
            }
            let len = read_u16(b, e + 8) as usize;
            if e + 10 + len > b.len() {
                return None;
            }
            let typ = read_u16(b, e);
            match read_data(b, typ, e + 10, len) {
                None => None,
                Some(data) => {
                    let rr = ResourceRecord {
                        name,
                        cls: read_u16(b, e + 2),
                        ttl: read_u32(b, e + 4),
                        data,
                    };
                    Some((rr, e + 10 + len))
                },
            }
        },
    }
}

fn read_records(b: &[u8], pos: usize, n: u16) -> (r: Option<(Vec<ResourceRecord>, usize)>)
    requires
        b@.len() <= MAX_PACKET_SIZE,
        pos <= b@.len(),
    ensures
        match r {
            Some((rs, e)) => records_at(b@, pos as int, n as nat) == Some(
                (rs@.map_values(|r: ResourceRecord| r@), e as int),
            ) && e <= b@.len(),
            None => records_at(b@, pos as int, n as nat).is_none(),
        },
{
    let mut acc: Vec<ResourceRecord> = Vec::new();
    let mut p = pos;
    let mut i: u16 = 0;
    assert(acc@.map_values(|r: ResourceRecord| r@) + Seq::<RecordModel>::empty() =~= Seq::<RecordModel>::empty());
    while i < n
        invariant
            b@.len() <= MAX_PACKET_SIZE,
            0 <= i <= n,
            p <= b@.len(),
            records_at(b@, pos as int, n as nat) == after_records(
                acc@.map_values(|r: ResourceRecord| r@),
                records_at(b@, p as int, (n - i) as nat),
            ),
        decreases n - i,
    {
        let ghost before = acc@.map_values(|r: ResourceRecord| r@);
        match read_record(b, p) {
            None => {
                return None;
            },
            Some((rr, e)) => {
                let ghost rm = rr@;
                acc.push(rr);
                proof {
                    assert(acc@.map_values(|r: ResourceRecord| r@) =~= before.push(rm));
                    match records_at(b@, e as int, (n - i - 1) as nat) {
                        Some((rs, end)) => {
                            assert(before + (seq![rm] + rs) =~= before.push(rm) + rs);
                        },
                        None => {},
                    }
                }
                p = e;
            },
        }
        i = i + 1;
    }
    proof {
        assert(acc@.map_values(|r: ResourceRecord| r@) + Seq::<RecordModel>::empty() =~= acc@.map_values(|r: ResourceRecord| r@));
    }
    Some((acc, p))
}

impl Packet {
    /// Reads a DNS message from its wire form.
    pub fn parse(b: &[u8]) -> (r: Result<Packet, ParseError>)
        ensures
            match r {
                Ok(p) => packet_of(b@) == Some(p@) && forall|i: int|
                    0 <= i < p.questions@.len() ==> (#[trigger] p.questions@[i]).qname.wf(),
                Err(_) => packet_of(b@).is_none(),
            },
    {
        if b.len() < 12 || b.len() > MAX_PACKET_SIZE {
            return Err(ParseError { offset: 0 });
        }
        let header = Header {
            id: read_u16(b, 0),
            query: b[2] & 0x80 == 0,
            opcode: (b[2] >> 3u8) & 0x0f,
            authoritative: b[2] & 0x04 != 0,
            truncated: b[2] & 0x02 != 0,
            recursion_desired: b[2] & 0x01 != 0,
            recursion_available: b[3] & 0x80 != 0,
            response_code: b[3] & 0x0f,
        };
        let (questions, q_end) = match read_questions(b, 12, read_u16(b, 4)) {
            Some(x) => x,
            None => {
                return Err(ParseError { offset: 12 });
            },
        };
        let (answers, an_end) = match read_records(b, q_end, read_u16(b, 6)) {
            Some(x) => x,
            None => {
                return Err(ParseError { offset: q_end });
            },
        };
        let (nameservers, ns_end) = match read_records(b, an_end, read_u16(b, 8)) {
            Some(x) => x,
            None => {
                return Err(ParseError { offset: an_end });
            },
        };
        let (additional, _) = match read_records(b, ns_end, read_u16(b, 10)) {
            Some(x) => x,
            None => {
                return Err(ParseError { offset: ns_end });
            },
        };
        Ok(Packet { header, questions, answers, nameservers, additional })
    }
}

} // verus!
