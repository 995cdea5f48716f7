//! What reading gives back of what encoding wrote.
use vstd::prelude::*;
use crate::dns::{
    be16, be32, data_type, enc_data, enc_labels, enc_name, enc_record, enc_records, enc_response,
    DataModel, Header, PacketModel, QuestionModel, RecordModel, response_fits, record_fits,
    RESPONSE_FLAGS_HI,
};
use crate::name::{valid_label, valid_labels};
use crate::parse::{
    data_at, header_of, labels_at, name_at, name_end, no_dot, packet_of, questions_at, record_at,
    records_at, u16_at, u32_at, MAX_PACKET_SIZE,
};

verus! {

/// `x` stands in `b` from `off` on.
pub open spec fn occurs_at(b: Seq<u8>, off: int, x: Seq<u8>) -> bool {
    0 <= off && off + x.len() <= b.len() && b.subrange(off, off + x.len()) == x
}

proof fn lemma_occurs_split(b: Seq<u8>, off: int, x: Seq<u8>, y: Seq<u8>)
    requires
        occurs_at(b, off, x + y),
    ensures
        occurs_at(b, off, x),
        occurs_at(b, off + x.len(), y),
{
    assert(b.subrange(off, off + x.len()) =~= (x + y).subrange(0, x.len() as int));
    assert((x + y).subrange(0, x.len() as int) =~= x);
    assert(b.subrange(off + x.len(), off + x.len() + y.len()) =~= (x + y).subrange(x.len() as int, (x + y).len() as int));
    assert((x + y).subrange(x.len() as int, (x + y).len() as int) =~= y);
}

proof fn lemma_occurs_index(b: Seq<u8>, off: int, x: Seq<u8>, k: int)
    requires
        occurs_at(b, off, x),
        0 <= k < x.len(),
    ensures
        b[off + k] == x[k],
{
    assert(b.subrange(off, off + x.len())[k] == b[off + k]);
}

proof fn lemma_read_u16(b: Seq<u8>, off: int, x: u16)
    requires
        occurs_at(b, off, be16(x)),
    ensures
        u16_at(b, off) == x,
{
    lemma_occurs_index(b, off, be16(x), 0);
    lemma_occurs_index(b, off, be16(x), 1);
    assert((x / 256) as u8 as int * 256 + (x % 256) as u8 as int == x) by (nonlinear_arith);
}

proof fn lemma_read_u32(b: Seq<u8>, off: int, x: u32)
    requires
        occurs_at(b, off, be32(x)),
    ensures
        u32_at(b, off) == x,
{
    lemma_occurs_split(b, off, be16((x / 65536) as u16), be16((x % 65536) as u16));
    lemma_read_u16(b, off, (x / 65536) as u16);
    lemma_read_u16(b, off + 2, (x % 65536) as u16);
    assert((x / 65536) as u16 as int * 65536 + (x % 65536) as u16 as int == x) by (nonlinear_arith);
}

proof fn lemma_read_labels(b: Seq<u8>, seg: nat, off: int, ls: Seq<Seq<u8>>)
    requires
        forall|i: int| 0 <= i < ls.len() ==> valid_label(#[trigger] ls[i]),
        occurs_at(b, off, enc_labels(ls) + seq![0u8]),
    ensures
        labels_at(b, seg, off) == Some(ls),
        name_end(b, off) == off + enc_labels(ls).len() + 1,
    decreases ls.len(),
{
    if ls.len() == 0 {
        assert(enc_labels(ls) + seq![0u8] =~= seq![0u8]);
        lemma_occurs_index(b, off, seq![0u8], 0);
        assert(labels_at(b, seg, off) == Some(Seq::<Seq<u8>>::empty()));
        assert(ls =~= Seq::<Seq<u8>>::empty());
    } else {
        let l = ls[0];
        assert(valid_label(ls[0]));
        let rest = ls.drop_first();
        let whole = enc_labels(ls) + seq![0u8];
        assert(whole =~= seq![l.len() as u8] + (l + (enc_labels(rest) + seq![0u8])));
        lemma_occurs_split(b, off, seq![l.len() as u8], l + (enc_labels(rest) + seq![0u8]));
        lemma_occurs_split(b, off + 1, l, enc_labels(rest) + seq![0u8]);
        lemma_occurs_index(b, off, seq![l.len() as u8], 0);
        assert forall|i: int| 0 <= i < rest.len() implies valid_label(#[trigger] rest[i]) by {
            assert(rest[i] == ls[i + 1]);
        }
        lemma_read_labels(b, seg, off + 1 + l.len(), rest);
        assert(b[off] == l.len() as u8);
        assert(b.subrange(off + 1, off + 1 + b[off]) == l);
        assert(no_dot(l));
        assert(seq![l] + rest =~= ls);
    }
}

proof fn lemma_read_name(b: Seq<u8>, off: int, ls: Seq<Seq<u8>>)
    requires
        valid_labels(ls),
        occurs_at(b, off, enc_name(ls)),
    ensures
        name_at(b, off) == Some((ls, off + enc_name(ls).len())),
{
    lemma_read_labels(b, off as nat, off, ls);
}

proof fn lemma_read_data(b: Seq<u8>, start: int, d: DataModel)
    requires
        crate::dns::data_well_formed(d),
        occurs_at(b, start, enc_data(d)),
    ensures
        data_at(b, data_type(d), start, enc_data(d).len() as int) == Some(d),
{
    match d {
        DataModel::A(a) => {},
        DataModel::AAAA(a) => {},
        DataModel::PTR(n) => {
            lemma_read_name(b, start, n);
        },
        DataModel::SRV(p, w, port, t) => {
            let x = be16(p) + be16(w) + be16(port);
            assert(enc_data(d) == x + enc_name(t));
            lemma_occurs_split(b, start, x, enc_name(t));
            lemma_occurs_split(b, start, be16(p) + be16(w), be16(port));
            lemma_occurs_split(b, start, be16(p), be16(w));
            lemma_read_u16(b, start, p);
            lemma_read_u16(b, start + 2, w);
            lemma_read_u16(b, start + 4, port);
            lemma_read_name(b, start + 6, t);
        },
        DataModel::TXT(t) => {},
        DataModel::Unknown(ty, raw) => {},
    }
}

proof fn lemma_read_record(b: Seq<u8>, off: int, r: RecordModel)
    requires
        record_fits(r),
        occurs_at(b, off, enc_record(r)),
    ensures
        record_at(b, off) == Some((r, off + enc_record(r).len())),
{
    let n = enc_name(r.name);
    let dl = enc_data(r.data).len() as u16;
    let fixed = be16(data_type(r.data)) + be16(r.cls) + be32(r.ttl) + be16(dl);
    assert(enc_record(r) =~= n + (fixed + enc_data(r.data)));
    lemma_occurs_split(b, off, n, fixed + enc_data(r.data));
    let e = off + n.len();
    lemma_occurs_split(b, e, fixed, enc_data(r.data));
    lemma_occurs_split(b, e, be16(data_type(r.data)) + be16(r.cls) + be32(r.ttl), be16(dl));
    lemma_occurs_split(b, e, be16(data_type(r.data)) + be16(r.cls), be32(r.ttl));
    lemma_occurs_split(b, e, be16(data_type(r.data)), be16(r.cls));
    lemma_read_name(b, off, r.name);
    lemma_read_u16(b, e, data_type(r.data));
    lemma_read_u16(b, e + 2, r.cls);
    lemma_read_u32(b, e + 4, r.ttl);
    lemma_read_u16(b, e + 8, dl);
    lemma_read_data(b, e + 10, r.data);
}

proof fn lemma_read_records(b: Seq<u8>, off: int, rs: Seq<RecordModel>)
    requires
        forall|i: int| 0 <= i < rs.len() ==> record_fits(#[trigger] rs[i]),
        occurs_at(b, off, enc_records(rs)),
    ensures
        records_at(b, off, rs.len()) == Some((rs, off + enc_records(rs).len())),
    decreases rs.len(),
{
    if rs.len() > 0 {
        let r = rs[0];
        let rest = rs.drop_first();
        assert(record_fits(rs[0]));
        lemma_occurs_split(b, off, enc_record(r), enc_records(rest));
        lemma_read_record(b, off, r);
        assert forall|i: int| 0 <= i < rest.len() implies record_fits(#[trigger] rest[i]) by {
            assert(rest[i] == rs[i + 1]);
        }
        lemma_read_records(b, off + enc_record(r).len(), rest);
        assert(seq![r] + rest =~= rs);
    } else {
        assert(rs =~= Seq::<RecordModel>::empty());
    }
}

/// The header of every response this responder sends: the given id, QR and AA set,
/// everything else clear.
pub open spec fn response_header(id: u16) -> Header {
    Header {
        id,
        query: false,
        opcode: 0,
        authoritative: true,
        truncated: false,
        recursion_desired: false,
        recursion_available: false,
        response_code: 0,
    }
}

proof fn lemma_response_head(id: u16, rs: Seq<RecordModel>)
    requires
        rs.len() <= 65535,
    ensures
        ({
            let b = enc_response(id, rs);
            &&& b.len() >= 12
            &&& header_of(b) == response_header(id)
            &&& u16_at(b, 4) == 0
            &&& u16_at(b, 6) == rs.len()
            &&& u16_at(b, 8) == 0
            &&& u16_at(b, 10) == 0
            &&& occurs_at(b, 12, enc_records(rs))
        }),
{
    let b = enc_response(id, rs);
    let n = rs.len() as u16;
    let head = be16(id) + seq![RESPONSE_FLAGS_HI, 0u8] + be16(0) + be16(n) + be16(0) + be16(0);
    assert(head.len() == 12);
    assert(b == head + enc_records(rs));
    assert(b.subrange(0, 2) =~= be16(id));
    assert(b.subrange(4, 6) =~= be16(0));
    assert(b.subrange(6, 8) =~= be16(n));
    assert(b.subrange(8, 10) =~= be16(0));
    assert(b.subrange(10, 12) =~= be16(0));
    assert(b.subrange(12, 12 + enc_records(rs).len() as int) =~= enc_records(rs));
    lemma_read_u16(b, 0, id);
    lemma_read_u16(b, 4, 0);
    lemma_read_u16(b, 6, n);
    lemma_read_u16(b, 8, 0);
    lemma_read_u16(b, 10, 0);
    let hi: u8 = b[2];
    let lo: u8 = b[3];
    assert(hi == 0x84u8);
    assert(lo == 0u8);
    assert(hi == 0x84u8 && lo == 0u8 ==> (hi & 0x80) != 0 && (hi >> 3u8) & 0x0f == 0 && (hi & 0x04) != 0
        && (hi & 0x02) == 0 && (hi & 0x01) == 0 && (lo & 0x80) == 0 && (lo & 0x0f) == 0) by (bit_vector);
    assert(header_of(b) == response_header(id));
}

/// An encoded response reads back as a response (QR set) that is authoritative (AA set),
/// with the same id, no questions and exactly the records that were encoded, in order.
pub proof fn lemma_response_round_trip(id: u16, rs: Seq<RecordModel>)
    requires
        response_fits(rs),
        enc_response(id, rs).len() <= MAX_PACKET_SIZE,
    ensures
        packet_of(enc_response(id, rs)) == Some(
            PacketModel {
                header: response_header(id),
                questions: Seq::<QuestionModel>::empty(),
                answers: rs,
                nameservers: Seq::<RecordModel>::empty(),
                additional: Seq::<RecordModel>::empty(),
            },
        ),
{
    let b = enc_response(id, rs);
    lemma_response_head(id, rs);
    lemma_read_records(b, 12, rs);
    let p: int = 12 + enc_records(rs).len() as int;
    assert(questions_at(b, 12, 0) == Some((Seq::<QuestionModel>::empty(), 12int)));
    assert(records_at(b, p, 0) == Some((Seq::<RecordModel>::empty(), p)));
}

} // verus!
