//! A multicast DNS responder that advertises DNS-SD services on the local link.
use vstd::prelude::*;
use vstd::string::StringSliceAdditionalSpecFns;

pub mod address_family;
pub mod dns;
pub mod fsm;
pub mod name;
pub mod parse;
pub mod round_trip;
pub mod services;

use crate::name::{labels_of, name_error, Name, NameError};
use crate::services::{ServiceData, ServiceModel};

verus! {

/// The UDP port of multicast DNS.
pub const MDNS_PORT: u16 = 5353;

/// Time to live of freshly announced records, in seconds.
pub const DEFAULT_TTL: u32 = 60;

/// Longest TXT entry: its length must fit in one byte.
pub const MAX_TXT_ENTRY: usize = 255;

/// Why a service could not be registered.
#[derive(Clone, Copy, Debug, PartialEq, Eq, Structural)]
pub enum Error {
    /// The TXT entry at this index is longer than 255 bytes.
    TxtTooLong { index: usize },
    /// A name built from the arguments is not a domain name.
    InvalidName(NameError),
}

/// Turns a name error into the error `register` reports.
pub fn into_io_error(e: NameError) -> (r: Error)
    ensures
        r == Error::InvalidName(e),
{
    Error::InvalidName(e)
}

/// The bytes of the TXT entries.
pub open spec fn entry_bytes(txt: Seq<&str>) -> Seq<Seq<u8>> {
    txt.map_values(|s: &str| s.spec_bytes())
}

/// One TXT entry on the wire: its length, then its bytes; nothing for an empty entry.
pub open spec fn txt_piece(e: Seq<u8>) -> Seq<u8> {
    if e.len() == 0 {
        Seq::empty()
    } else {
        seq![e.len() as u8] + e
    }
}

/// TXT entries on the wire, each behind its length, empty entries left out.
pub open spec fn txt_concat(es: Seq<Seq<u8>>) -> Seq<u8>
    decreases es.len(),
{
    if es.len() == 0 {
        Seq::empty()
    } else {
        txt_concat(es.drop_last()) + txt_piece(es.last())
    }
}

/// The TXT record payload: the non-empty entries each behind its length, or one zero
/// byte when there are none.
pub open spec fn txt_payload(es: Seq<Seq<u8>>) -> Seq<u8> {
    if txt_concat(es).len() == 0 {
        seq![0u8]
    } else {
        txt_concat(es)
    }
}

/// The bytes are a run of entries, each behind a length byte that is not zero.
pub open spec fn framed(p: Seq<u8>) -> bool
    decreases p.len(),
{
    if p.len() == 0 {
        true
    } else {
        p[0] != 0 && 1 + p[0] <= p.len() && framed(p.subrange(1 + p[0] as int, p.len() as int))
    }
}

/// A TXT payload as it may go on the wire: the single zero byte that stands for no
/// entries, or entries none of which has a zero length byte.
pub open spec fn txt_well_formed(p: Seq<u8>) -> bool {
    p == seq![0u8] || (p.len() > 0 && framed(p))
}

proof fn lemma_framed_append(a: Seq<u8>, b: Seq<u8>)
    requires
        framed(a),
        framed(b),
    ensures
        framed(a + b),
    decreases a.len(),
{
    if a.len() == 0 {
        assert(a + b =~= b);
    } else {
        let k = 1 + a[0] as int;
        let rest = a.subrange(k, a.len() as int);
        lemma_framed_append(rest, b);
        assert((a + b)[0] == a[0]);
        assert((a + b).subrange(k, (a + b).len() as int) =~= rest + b);
    }
}

/// The payload of entries of at most 255 bytes never holds a zero length byte: it is
/// the single zero byte of no entries, or entries each behind a non-zero length.
pub proof fn lemma_txt_payload_well_formed(es: Seq<Seq<u8>>)
    requires
        forall|i: int| 0 <= i < es.len() ==> (#[trigger] es[i]).len() <= MAX_TXT_ENTRY,
    ensures
        txt_well_formed(txt_payload(es)),
{
    lemma_txt_concat_framed(es);
}

proof fn lemma_txt_concat_framed(es: Seq<Seq<u8>>)
    requires
        forall|i: int| 0 <= i < es.len() ==> (#[trigger] es[i]).len() <= MAX_TXT_ENTRY,
    ensures
        framed(txt_concat(es)),
    decreases es.len(),
{
    if es.len() > 0 {
        let p = es.drop_last();
        assert forall|i: int| 0 <= i < p.len() implies (#[trigger] p[i]).len() <= MAX_TXT_ENTRY by {
            assert(p[i] == es[i]);
        }
        lemma_txt_concat_framed(p);
        let e = es.last();
        assert(e.len() <= MAX_TXT_ENTRY);
        let piece = txt_piece(e);
        if e.len() > 0 {
            assert(piece[0] == e.len() as u8);
            assert(piece.subrange(1 + piece[0] as int, piece.len() as int) =~= Seq::<u8>::empty());
            assert(framed(Seq::<u8>::empty()));
            assert(framed(piece));
        } else {
            assert(framed(piece));
        }
        lemma_framed_append(txt_concat(p), piece);
    }
}

/// The index of the first TXT entry longer than 255 bytes, if any.
pub open spec fn first_long_entry(es: Seq<Seq<u8>>) -> Option<int> {
    if exists|i: int| 0 <= i < es.len() && (#[trigger] es[i]).len() > MAX_TXT_ENTRY {
        Some(choose|i: int| 0 <= i < es.len() && (#[trigger] es[i]).len() > MAX_TXT_ENTRY
            && forall|j: int| 0 <= j < i ==> es[j].len() <= MAX_TXT_ENTRY)
    } else {
        None
    }
}

/// A TXT entry of 255 bytes is accepted and one of 256 is not: the entries pass exactly
/// when none is longer than 255 bytes.
pub proof fn lemma_txt_entry_limit(es: Seq<Seq<u8>>)
    ensures
        first_long_entry(es).is_none() <==> forall|i: int| 0 <= i < es.len() ==> (#[trigger] es[i]).len() <= 255,
        forall|i: int| 0 <= i < es.len() && (#[trigger] es[i]).len() == 256 ==> first_long_entry(es).is_some(),
{
}

/// No TXT entries give the payload of one zero byte.
pub proof fn lemma_empty_txt_payload()
    ensures
        txt_payload(Seq::<Seq<u8>>::empty()) == seq![0u8],
{
}

/// `.local`.
pub open spec fn local_suffix() -> Seq<u8> {
    seq![46u8, 108, 111, 99, 97, 108]
}

/// The dotted form of a service type: `{typ}.local`.
pub open spec fn type_bytes(typ: Seq<u8>) -> Seq<u8> {
    typ + local_suffix()
}

/// The dotted form of an instance name: `{name}.{typ}.local`.
pub open spec fn instance_bytes(name: Seq<u8>, typ: Seq<u8>) -> Seq<u8> {
    name + seq![46u8] + typ + local_suffix()
}

/// What `service_data` gives for its arguments.
pub open spec fn service_result(typ: Seq<u8>, name: Seq<u8>, port: u16, txt: Seq<Seq<u8>>) -> Result<ServiceModel, Error> {
    match first_long_entry(txt) {
        Some(i) => Err(Error::TxtTooLong { index: i as usize }),
        None => match name_error(labels_of(type_bytes(typ))) {
            Some(e) => Err(Error::InvalidName(e)),
            None => match name_error(labels_of(instance_bytes(name, typ))) {
                Some(e) => Err(Error::InvalidName(e)),
                None => Ok(
                    ServiceModel {
                        typ: labels_of(type_bytes(typ)),
                        name: labels_of(instance_bytes(name, typ)),
                        port,
                        txt: txt_payload(txt),
                    },
                ),
            },
        },
    }
}

fn push_str_bytes(out: &mut Vec<u8>, s: &str)
    ensures
        final(out)@ == old(out)@ + s.spec_bytes(),
{
    let b = s.as_bytes();
    let mut i: usize = 0;
    while i < b.len()
        invariant
            0 <= i <= b@.len(),
            out@ =~= old(out)@ + b@.subrange(0, i as int),
        decreases b@.len() - i,
    {
        out.push(b[i]);
        i = i + 1;
    }
    assert(b@.subrange(0, b@.len() as int) == b@);
}

fn push_local(out: &mut Vec<u8>)
    ensures
        final(out)@ == old(out)@ + local_suffix(),
{
    out.push(46);
    out.push(108);
    out.push(111);
    out.push(99);
    out.push(97);
    out.push(108);
    assert(final(out)@ =~= old(out)@ + local_suffix());
}

/// The TXT record payload for the entries; an error names the first entry over 255 bytes.
pub fn encode_txt(txt: &[&str]) -> (r: Result<Vec<u8>, Error>)
    ensures
        match first_long_entry(entry_bytes(txt@)) {
            Some(i) => r == Err::<Vec<u8>, Error>(Error::TxtTooLong { index: i as usize }),
            None => r matches Ok(v) && v@ == txt_payload(entry_bytes(txt@)) && txt_well_formed(v@),
        },
{
    let ghost es = entry_bytes(txt@);
    let mut i: usize = 0;
    while i < txt.len()
        invariant
            es == entry_bytes(txt@),
            0 <= i <= txt@.len(),
            forall|j: int| 0 <= j < i ==> es[j].len() <= MAX_TXT_ENTRY,
        decreases txt@.len() - i,
    {
        let s = txt[i];
        let l = s.as_bytes().len();
        assert(s == txt@[i as int]);
        assert(l == es[i as int].len());
        if l > MAX_TXT_ENTRY {
            proof {
                assert(es[i as int] == txt@[i as int].spec_bytes());
                let k = first_long_entry(es).unwrap();
                assert(es[k].len() > MAX_TXT_ENTRY);
                if k < i {
                } else if k > i {
                    assert(es[i as int].len() <= MAX_TXT_ENTRY);
                }
            }
            return Err(Error::TxtTooLong { index: i });
        }
        assert(es[i as int] == txt@[i as int].spec_bytes());
        i = i + 1;
    }
    assert(first_long_entry(es).is_none());
    let mut out: Vec<u8> = Vec::new();
    let mut k: usize = 0;
    while k < txt.len()
        invariant
            es == entry_bytes(txt@),
            0 <= k <= txt@.len(),
            forall|j: int| 0 <= j < txt@.len() ==> es[j].len() <= MAX_TXT_ENTRY,
            out@ == txt_concat(es.subrange(0, k as int)),
        decreases txt@.len() - k,
    {
        let s = txt[k];
        assert(es[k as int] == s.spec_bytes());
        assert(es.subrange(0, k + 1).drop_last() =~= es.subrange(0, k as int));
        assert(es.subrange(0, k + 1).last() == es[k as int]);
        let len = s.as_bytes().len();
        if len > 0 {
            out.push(len as u8);
            push_str_bytes(&mut out, s);
            assert(out@ =~= txt_concat(es.subrange(0, k as int)) + txt_piece(es[k as int]));
        }
        k = k + 1;
    }
    assert(es.subrange(0, es.len() as int) == es);
    proof {
        lemma_txt_payload_well_formed(es);
    }
    if out.len() == 0 {
        out.push(0);
        assert(out@ =~= seq![0u8]);
    }
    Ok(out)
}

/// The advertisement for a service: type `{typ}.local`, instance `{name}.{typ}.local`,
/// the port, and the TXT payload of the entries.
pub fn service_data(svc_type: &str, svc_name: &str, port: u16, txt: &[&str]) -> (r: Result<ServiceData, Error>)
    ensures
        match r {
            Ok(d) => service_result(svc_type.spec_bytes(), svc_name.spec_bytes(), port, entry_bytes(txt@)) == Ok::<ServiceModel, Error>(d@) && d.wf()
                && txt_well_formed(d.txt@),
            Err(e) => service_result(svc_type.spec_bytes(), svc_name.spec_bytes(), port, entry_bytes(txt@)) == Err::<ServiceModel, Error>(e),
        },
{
    let payload = encode_txt(txt)?;
    let mut tb: Vec<u8> = Vec::new();
    push_str_bytes(&mut tb, svc_type);
    push_local(&mut tb);
    let typ = match Name::from_bytes(tb.as_slice()) {
        Ok(n) => n,
        Err(e) => {
            return Err(into_io_error(e));
        },
    };
    let mut nb: Vec<u8> = Vec::new();
    push_str_bytes(&mut nb, svc_name);
    nb.push(46);
    push_str_bytes(&mut nb, svc_type);
    push_local(&mut nb);
    assert(nb@ =~= instance_bytes(svc_name.spec_bytes(), svc_type.spec_bytes()));
    let name = match Name::from_bytes(nb.as_slice()) {
        Ok(n) => n,
        Err(e) => {
            return Err(into_io_error(e));
        },
    };
    Ok(ServiceData { typ, name, port, txt: payload })
}

/// The host name with `.local` appended unless it already ends so.
pub open spec fn local_host_bytes(host: Seq<u8>) -> Seq<u8> {
    if host.len() >= 6 && host.subrange(host.len() - 6, host.len() as int) == local_suffix() {
        host
    } else {
        host + local_suffix()
    }
}

/// The name the responder advertises for a host: `{host}.local`, or the host name as it
/// is when it already ends in `.local`.
pub fn local_hostname(host: &str) -> (r: Result<Name, NameError>)
    ensures
        match r {
            Ok(n) => n@ == labels_of(local_host_bytes(host.spec_bytes())) && n.wf()
                && name_error(labels_of(local_host_bytes(host.spec_bytes()))).is_none(),
            Err(e) => name_error(labels_of(local_host_bytes(host.spec_bytes()))) == Some(e),
        },
{
    let mut b: Vec<u8> = Vec::new();
    push_str_bytes(&mut b, host);
    let n = b.len();
    let mut ends = n >= 6;
    if ends {
        let mut k: usize = 0;
        let mut tail: Vec<u8> = Vec::new();
        push_local(&mut tail);
        while k < 6
            invariant
                n == b@.len(),
                n >= 6,
                tail@ == local_suffix(),
                0 <= k <= 6,
                ends == forall|j: int| 0 <= j < k ==> b@[n - 6 + j] == tail@[j],
            decreases 6 - k,
        {
            if b[n - 6 + k] != tail[k] {
                ends = false;
            }
            k = k + 1;
        }
        assert(ends == (b@.subrange(n - 6, n as int) =~= local_suffix()));
    }
    if !ends {
        push_local(&mut b);
    }
    Name::from_bytes(b.as_slice())
}

} // verus!
