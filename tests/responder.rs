use libmdns::address_family::{AddressFamily, Inet, Inet6};
use libmdns::dns::{
    encode_response, IpAddr, Packet, RRData, ResourceRecord, SocketAddr, CLASS_IN, TYPE_A,
    TYPE_AAAA, TYPE_PTR, TYPE_SRV, TYPE_TXT,
};
use libmdns::fsm::{Command, FSMState, InterfaceAddress, SendOutcome};
use libmdns::name::{Name, NameError};
use libmdns::services::ServicesInner;
use libmdns::{encode_txt, into_io_error, local_hostname, service_data, Error, DEFAULT_TTL};

fn name(s: &str) -> Name {
    Name::from_bytes(s.as_bytes()).unwrap()
}

fn labels(n: &Name) -> Vec<String> {
    n.labels.iter().map(|l| String::from_utf8(l.clone()).unwrap()).collect()
}

fn dotted(n: &Name) -> String {
    labels(n).join(".")
}

fn registry() -> ServicesInner {
    ServicesInner::new(local_hostname("host").unwrap())
}

fn ifaces() -> Vec<InterfaceAddress> {
    vec![
        InterfaceAddress { ip: Some(IpAddr::V4([127, 0, 0, 1])), loopback: true },
        InterfaceAddress { ip: Some(IpAddr::V4([192, 0, 2, 1])), loopback: false },
        InterfaceAddress { ip: Some(IpAddr::V6([0xfe, 0x80, 0, 0, 0, 0, 0, 0, 0, 0, 0, 0, 0, 0, 0, 1])), loopback: false },
        InterfaceAddress { ip: None, loopback: false },
    ]
}

fn http_service(reg: &mut ServicesInner) -> usize {
    let svc = service_data("_http._tcp", "Web Server", 80, &["path=/"]).unwrap();
    reg.register(svc).unwrap()
}

fn push_name(out: &mut Vec<u8>, s: &str) {
    for l in s.split('.') {
        out.push(l.len() as u8);
        out.extend_from_slice(l.as_bytes());
    }
    out.push(0);
}

/// A packet with the given header flags and questions `(name, type, class)`.
fn packet(id: u16, flags: u8, questions: &[(&str, u16, u16)]) -> Vec<u8> {
    let mut b = vec![(id >> 8) as u8, id as u8, flags, 0, 0, questions.len() as u8, 0, 0, 0, 0, 0, 0];
    for (n, t, c) in questions {
        push_name(&mut b, n);
        b.extend_from_slice(&t.to_be_bytes());
        b.extend_from_slice(&c.to_be_bytes());
    }
    b
}

fn peer() -> SocketAddr {
    SocketAddr { ip: IpAddr::V4([192, 0, 2, 5]), port: 50000 }
}

fn group_v4() -> SocketAddr {
    SocketAddr { ip: IpAddr::V4([224, 0, 0, 251]), port: 5353 }
}

fn drain<AF: AddressFamily>(fsm: &mut FSMState<AF>) -> Vec<(Vec<u8>, SocketAddr)> {
    let mut v = Vec::new();
    while let Some(d) = fsm.pop_outgoing() {
        v.push(d);
    }
    v
}

fn types_of(answers: &[ResourceRecord]) -> Vec<&'static str> {
    answers
        .iter()
        .map(|r| match r.data {
            RRData::A(_) => "A",
            RRData::AAAA(_) => "AAAA",
            RRData::PTR(_) => "PTR",
            RRData::SRV { .. } => "SRV",
            RRData::TXT(_) => "TXT",
            RRData::Unknown { .. } => "?",
        })
        .collect()
}

#[test]
fn register_then_ptr_query() {
    let mut reg = registry();
    http_service(&mut reg);
    let mut fsm = FSMState::<Inet>::new();
    let q = packet(7, 0, &[("_http._tcp.local", TYPE_PTR, CLASS_IN)]);
    fsm.handle_packet(&reg, &ifaces(), &q, peer());
    let out = drain(&mut fsm);
    assert_eq!(out.len(), 1);
    assert_eq!(out[0].1, group_v4());
    let p = Packet::parse(&out[0].0).unwrap();
    assert_eq!(p.header.id, 7);
    assert_eq!(types_of(&p.answers), vec!["PTR", "SRV", "TXT", "A"]);
    match &p.answers[0].data {
        RRData::PTR(n) => assert_eq!(dotted(n), "Web Server._http._tcp.local"),
        _ => panic!("expected PTR"),
    }
    assert_eq!(dotted(&p.answers[0].name), "_http._tcp.local");
    match &p.answers[1].data {
        RRData::SRV { port, target, .. } => {
            assert_eq!(*port, 80);
            assert_eq!(dotted(target), "host.local");
        }
        _ => panic!("expected SRV"),
    }
    match &p.answers[2].data {
        RRData::TXT(t) => assert_eq!(t, &b"\x06path=/".to_vec()),
        _ => panic!("expected TXT"),
    }
    match &p.answers[3].data {
        RRData::A(a) => assert_eq!(a, &[192, 0, 2, 1]),
        _ => panic!("expected A"),
    }
    assert!(p.answers.iter().all(|r| r.ttl == DEFAULT_TTL && r.cls == CLASS_IN));
}

#[test]
fn ptr_query_on_v6_engine_gives_aaaa() {
    let mut reg = registry();
    http_service(&mut reg);
    let mut fsm = FSMState::<Inet6>::new();
    let q = packet(1, 0, &[("_http._tcp.local", TYPE_PTR, CLASS_IN)]);
    fsm.handle_packet(&reg, &ifaces(), &q, peer());
    let out = drain(&mut fsm);
    assert_eq!(out.len(), 1);
    assert_eq!(out[0].1.ip, IpAddr::V6([0xff, 0x02, 0, 0, 0, 0, 0, 0, 0, 0, 0, 0, 0, 0, 0, 0xfb]));
    let p = Packet::parse(&out[0].0).unwrap();
    assert_eq!(types_of(&p.answers), vec!["PTR", "SRV", "TXT", "AAAA"]);
}

#[test]
fn qu_question_gets_unicast_reply() {
    let mut reg = registry();
    http_service(&mut reg);
    let mut fsm = FSMState::<Inet>::new();
    let q = packet(9, 0, &[("_http._tcp.local", TYPE_PTR, CLASS_IN | 0x8000)]);
    fsm.handle_packet(&reg, &ifaces(), &q, peer());
    let out = drain(&mut fsm);
    assert_eq!(out.len(), 1);
    assert_eq!(out[0].1, peer());
    let p = Packet::parse(&out[0].0).unwrap();
    assert_eq!(types_of(&p.answers), vec!["PTR", "SRV", "TXT", "A"]);
}

#[test]
fn meta_query_lists_each_type_once() {
    let mut reg = registry();
    reg.register(service_data("_http._tcp", "One", 80, &[]).unwrap()).unwrap();
    reg.register(service_data("_ipp._tcp", "Printer", 631, &[]).unwrap()).unwrap();
    reg.register(service_data("_http._tcp", "Two", 8080, &[]).unwrap()).unwrap();
    let mut fsm = FSMState::<Inet>::new();
    let q = packet(3, 0, &[("_services._dns-sd._udp.local", TYPE_PTR, CLASS_IN)]);
    fsm.handle_packet(&reg, &ifaces(), &q, peer());
    let out = drain(&mut fsm);
    assert_eq!(out.len(), 1);
    let p = Packet::parse(&out[0].0).unwrap();
    assert_eq!(p.answers.len(), 2);
    let names: Vec<String> = p
        .answers
        .iter()
        .map(|r| match &r.data {
            RRData::PTR(n) => dotted(n),
            _ => panic!("expected PTR"),
        })
        .collect();
    assert_eq!(names, vec!["_http._tcp.local", "_ipp._tcp.local"]);
}

#[test]
fn types_iter_yields_distinct_types() {
    let mut reg = registry();
    reg.register(service_data("_http._tcp", "One", 80, &[]).unwrap()).unwrap();
    reg.register(service_data("_ipp._tcp", "Printer", 631, &[]).unwrap()).unwrap();
    reg.register(service_data("_HTTP._tcp", "Two", 8080, &[]).unwrap()).unwrap();
    let types: Vec<String> = reg.types_iter().iter().map(dotted).collect();
    assert_eq!(types, vec!["_http._tcp.local", "_ipp._tcp.local"]);
}

#[test]
fn goodbye_on_unregister() {
    let mut reg = registry();
    let id = http_service(&mut reg);
    let svc = reg.unregister(id).unwrap();
    let mut fsm = FSMState::<Inet>::new();
    let cmd = Command::SendUnsolicited { svc, ttl: 0, include_ip: false };
    assert!(fsm.handle_command(&reg, &ifaces(), &cmd));
    let out = drain(&mut fsm);
    assert_eq!(out.len(), 1);
    assert_eq!(out[0].1, group_v4());
    let p = Packet::parse(&out[0].0).unwrap();
    assert_eq!(p.header.id, 0);
    assert_eq!(types_of(&p.answers), vec!["PTR", "SRV", "TXT"]);
    assert!(p.answers.iter().all(|r| r.ttl == 0));
    assert!(reg.find_by_type(&name("_http._tcp.local")).is_empty());
}

#[test]
fn announcement_includes_addresses() {
    let mut reg = registry();
    http_service(&mut reg);
    let svc = service_data("_http._tcp", "Web Server", 80, &["path=/"]).unwrap();
    let mut fsm = FSMState::<Inet>::new();
    fsm.send_unsolicited(&reg, &ifaces(), &svc, DEFAULT_TTL, true);
    let out = drain(&mut fsm);
    let p = Packet::parse(&out[0].0).unwrap();
    assert!(!p.header.query);
    assert!(p.header.authoritative);
    assert_eq!(types_of(&p.answers), vec!["PTR", "SRV", "TXT", "A"]);
}

#[test]
fn shutdown_stops_engine() {
    let reg = registry();
    let mut fsm = FSMState::<Inet>::new();
    assert!(!fsm.handle_command(&reg, &ifaces(), &Command::Shutdown));
    assert!(fsm.pop_outgoing().is_none());
}

#[test]
fn txt_entry_of_255_accepted_256_rejected() {
    let ok = "a".repeat(255);
    let payload = encode_txt(&[ok.as_str()]).unwrap();
    assert_eq!(payload.len(), 256);
    assert_eq!(payload[0], 255);
    let long = "a".repeat(256);
    assert_eq!(encode_txt(&["x", long.as_str()]), Err(Error::TxtTooLong { index: 1 }));
}

#[test]
fn txt_too_long_registers_nothing() {
    let mut reg = registry();
    let long = "a".repeat(256);
    let r = service_data("_http._tcp", "Web Server", 80, &[long.as_str()]);
    assert!(matches!(r, Err(Error::TxtTooLong { index: 0 })));
    assert!(reg.types_iter().is_empty());
    let fsm = FSMState::<Inet>::new();
    let mut fsm = fsm;
    assert!(fsm.pop_outgoing().is_none());
    assert!(reg.unregister(0).is_none());
}

#[test]
fn empty_txt_is_single_zero_byte() {
    assert_eq!(encode_txt(&[]).unwrap(), vec![0u8]);
    let d = service_data("_http._tcp", "Web Server", 80, &[]).unwrap();
    assert_eq!(d.txt, vec![0u8]);
}

#[test]
fn txt_entries_are_length_prefixed() {
    assert_eq!(encode_txt(&["a=1", "bc"]).unwrap(), b"\x03a=1\x02bc".to_vec());
}

#[test]
fn other_class_gets_no_answer() {
    let mut reg = registry();
    http_service(&mut reg);
    let mut fsm = FSMState::<Inet>::new();
    let q = packet(1, 0, &[("_http._tcp.local", TYPE_PTR, 3)]);
    fsm.handle_packet(&reg, &ifaces(), &q, peer());
    assert!(drain(&mut fsm).is_empty());
    let q = packet(1, 0, &[("_http._tcp.local", TYPE_PTR, 255)]);
    fsm.handle_packet(&reg, &ifaces(), &q, peer());
    assert_eq!(drain(&mut fsm).len(), 1);
}

#[test]
fn truncated_query_gets_no_response() {
    let mut reg = registry();
    http_service(&mut reg);
    let mut fsm = FSMState::<Inet>::new();
    let q = packet(1, 0x02, &[("_http._tcp.local", TYPE_PTR, CLASS_IN)]);
    fsm.handle_packet(&reg, &ifaces(), &q, peer());
    assert!(drain(&mut fsm).is_empty());
}

#[test]
fn response_packet_is_dropped() {
    let mut reg = registry();
    http_service(&mut reg);
    let mut fsm = FSMState::<Inet>::new();
    let q = packet(1, 0x84, &[("_http._tcp.local", TYPE_PTR, CLASS_IN)]);
    assert!(Packet::parse(&q).is_ok());
    fsm.handle_packet(&reg, &ifaces(), &q, peer());
    assert!(drain(&mut fsm).is_empty());
}

#[test]
fn malformed_packet_is_dropped() {
    let reg = registry();
    let mut fsm = FSMState::<Inet>::new();
    fsm.handle_packet(&reg, &ifaces(), &[0, 1, 2], peer());
    let mut q = packet(1, 0, &[("_http._tcp.local", TYPE_PTR, CLASS_IN)]);
    q.truncate(q.len() - 2);
    fsm.handle_packet(&reg, &ifaces(), &q, peer());
    assert!(drain(&mut fsm).is_empty());
    assert!(Packet::parse(&q).is_err());
}

#[test]
fn register_unregister_restores_registry() {
    let mut reg = registry();
    let first = http_service(&mut reg);
    let before: Vec<String> = reg.types_iter().iter().map(dotted).collect();
    let svc = service_data("_ipp._tcp", "Printer", 631, &[]).unwrap();
    let id = reg.register(svc).unwrap();
    let back = reg.unregister(id).unwrap();
    assert_eq!(dotted(&back.name), "Printer._ipp._tcp.local");
    assert_eq!(back.port, 631);
    let after: Vec<String> = reg.types_iter().iter().map(dotted).collect();
    assert_eq!(before, after);
    assert_eq!(reg.register(service_data("_ipp._tcp", "Printer", 631, &[]).unwrap()), Some(id));
    assert_ne!(first, id);
}

#[test]
fn two_registrations_get_distinct_ids() {
    let mut reg = registry();
    let a = http_service(&mut reg);
    let b = http_service(&mut reg);
    assert_ne!(a, b);
    assert_eq!(reg.find_by_type(&name("_http._tcp.local")).len(), 2);
    assert!(reg.unregister(b).is_some());
    assert!(reg.unregister(a).is_some());
    assert!(reg.types_iter().is_empty());
    assert!(reg.find_by_type(&name("_http._tcp.local")).is_empty());
}

#[test]
fn unregister_unknown_id_changes_nothing() {
    let mut reg = registry();
    let a = http_service(&mut reg);
    assert!(reg.unregister(a + 1).is_none());
    assert_eq!(reg.find_by_type(&name("_http._tcp.local")).len(), 1);
}

#[test]
fn lookups_ignore_case() {
    let mut reg = registry();
    http_service(&mut reg);
    assert_eq!(reg.find_by_type(&name("_HTTP._TCP.LOCAL")).len(), 1);
    let s = reg.find_by_name(&name("web server._http._tcp.local")).unwrap();
    assert_eq!(s.port, 80);
    assert!(reg.find_by_name(&name("Other._http._tcp.local")).is_none());
}

#[test]
fn find_by_name_prefers_latest() {
    let mut reg = registry();
    reg.register(service_data("_http._tcp", "Web", 80, &[]).unwrap()).unwrap();
    reg.register(service_data("_http._tcp", "Web", 81, &[]).unwrap()).unwrap();
    assert_eq!(reg.find_by_name(&name("Web._http._tcp.local")).unwrap().port, 81);
}

#[test]
fn srv_and_txt_queries() {
    let mut reg = registry();
    http_service(&mut reg);
    let mut fsm = FSMState::<Inet>::new();
    let q = packet(2, 0, &[("Web Server._http._tcp.local", TYPE_SRV, CLASS_IN), ("Web Server._http._tcp.local", TYPE_TXT, CLASS_IN)]);
    fsm.handle_packet(&reg, &ifaces(), &q, peer());
    let out = drain(&mut fsm);
    assert_eq!(out.len(), 1);
    let p = Packet::parse(&out[0].0).unwrap();
    assert_eq!(types_of(&p.answers), vec!["SRV", "A", "TXT"]);
}

#[test]
fn address_query_on_hostname() {
    let reg = registry();
    let mut fsm = FSMState::<Inet>::new();
    let q = packet(4, 0, &[("HOST.local", TYPE_A, CLASS_IN), ("other.local", TYPE_AAAA, CLASS_IN)]);
    fsm.handle_packet(&reg, &ifaces(), &q, peer());
    let out = drain(&mut fsm);
    assert_eq!(out.len(), 1);
    let p = Packet::parse(&out[0].0).unwrap();
    assert_eq!(types_of(&p.answers), vec!["A"]);
    assert_eq!(dotted(&p.answers[0].name), "host.local");
}

#[test]
fn mixed_questions_split_between_multicast_and_unicast() {
    let mut reg = registry();
    http_service(&mut reg);
    let mut fsm = FSMState::<Inet>::new();
    let q = packet(5, 0, &[("_http._tcp.local", TYPE_PTR, CLASS_IN), ("Web Server._http._tcp.local", TYPE_TXT, CLASS_IN | 0x8000)]);
    fsm.handle_packet(&reg, &ifaces(), &q, peer());
    let out = drain(&mut fsm);
    assert_eq!(out.len(), 2);
    assert_eq!(out[0].1, group_v4());
    assert_eq!(out[1].1, peer());
    assert_eq!(types_of(&Packet::parse(&out[1].0).unwrap().answers), vec!["TXT"]);
}

#[test]
fn unknown_query_type_unanswered() {
    let mut reg = registry();
    http_service(&mut reg);
    let mut fsm = FSMState::<Inet>::new();
    let q = packet(5, 0, &[("_http._tcp.local", 99, CLASS_IN)]);
    fsm.handle_packet(&reg, &ifaces(), &q, peer());
    assert!(drain(&mut fsm).is_empty());
}

#[test]
fn compressed_question_names_are_read() {
    let mut reg = registry();
    http_service(&mut reg);
    let mut q = packet(6, 0, &[("_http._tcp.local", TYPE_TXT, CLASS_IN)]);
    q[5] = 2;
    q.push(10);
    q.extend_from_slice(b"Web Server");
    q.extend_from_slice(&[0xc0, 12]);
    q.extend_from_slice(&TYPE_TXT.to_be_bytes());
    q.extend_from_slice(&CLASS_IN.to_be_bytes());
    let p = Packet::parse(&q).unwrap();
    assert_eq!(dotted(&p.questions[1].qname), "Web Server._http._tcp.local");
    let mut fsm = FSMState::<Inet>::new();
    fsm.handle_packet(&reg, &ifaces(), &q, peer());
    let out = drain(&mut fsm);
    assert_eq!(types_of(&Packet::parse(&out[0].0).unwrap().answers), vec!["TXT"]);
}

#[test]
fn forward_compression_pointer_is_rejected() {
    let mut q = packet(6, 0, &[]);
    q[5] = 1;
    q.extend_from_slice(&[0xc0, 12, 0, 1, 0, 1]);
    assert!(Packet::parse(&q).is_err());
}

#[test]
fn encode_then_parse_gives_same_records() {
    let rs = vec![
        ResourceRecord { name: name("a.local"), cls: CLASS_IN, ttl: 120, data: RRData::A([10, 0, 0, 1]) },
        ResourceRecord { name: name("a.local"), cls: CLASS_IN, ttl: 70000, data: RRData::PTR(name("b.a.local")) },
        ResourceRecord {
            name: name("s.local"),
            cls: CLASS_IN,
            ttl: 1,
            data: RRData::SRV { priority: 1, weight: 2, port: 443, target: name("a.local") },
        },
        ResourceRecord { name: name("s.local"), cls: CLASS_IN, ttl: 0, data: RRData::TXT(vec![0]) },
    ];
    let bytes = encode_response(0x1234, &rs).unwrap();
    assert_eq!(&bytes[..4], &[0x12, 0x34, 0x84, 0]);
    let p = Packet::parse(&bytes).unwrap();
    assert_eq!(p.header.id, 0x1234);
    assert!(!p.header.query && p.header.authoritative && !p.header.truncated);
    assert_eq!(p.answers.len(), 4);
    assert_eq!(p.answers[1].ttl, 70000);
    match &p.answers[2].data {
        RRData::SRV { priority, weight, port, target } => {
            assert_eq!((*priority, *weight, *port), (1, 2, 443));
            assert_eq!(dotted(target), "a.local");
        }
        _ => panic!("expected SRV"),
    }
    assert_eq!(encode_response(0x1234, &p.answers).unwrap(), bytes);
}

#[test]
fn names_are_validated() {
    assert_eq!(Name::from_bytes(b"a..local").err(), Some(NameError::EmptyLabel));
    assert_eq!(Name::from_bytes(b".local").err(), Some(NameError::EmptyLabel));
    let long = format!("{}.local", "x".repeat(64));
    assert_eq!(Name::from_bytes(long.as_bytes()).err(), Some(NameError::LabelTooLong));
    let many = vec!["abcdefghi"; 30].join(".");
    assert_eq!(Name::from_bytes(many.as_bytes()).err(), Some(NameError::NameTooLong));
    assert_eq!(labels(&name("Web Server._http._tcp.local")), vec!["Web Server", "_http", "_tcp", "local"]);
    assert!(matches!(service_data("_http..tcp", "x", 1, &[]), Err(Error::InvalidName(NameError::EmptyLabel))));
    assert_eq!(into_io_error(NameError::LabelTooLong), Error::InvalidName(NameError::LabelTooLong));
}

#[test]
fn hostname_gets_local_suffix() {
    assert_eq!(dotted(&local_hostname("host").unwrap()), "host.local");
    assert_eq!(dotted(&local_hostname("host.local").unwrap()), "host.local");
    assert_eq!(dotted(&local_hostname("my.host").unwrap()), "my.host.local");
}

#[test]
fn family_addresses() {
    assert_eq!(Inet::any_addr(), IpAddr::V4([0, 0, 0, 0]));
    assert_eq!(Inet::mdns_group(), IpAddr::V4([224, 0, 0, 251]));
    assert!(!Inet::v6());
    assert_eq!(Inet6::any_addr(), IpAddr::V6([0; 16]));
    assert!(Inet6::v6());
}

#[test]
fn failed_send_goes_back_to_front() {
    let mut reg = registry();
    http_service(&mut reg);
    let svc = service_data("_http._tcp", "Web Server", 80, &[]).unwrap();
    let mut fsm = FSMState::<Inet>::new();
    fsm.send_unsolicited(&reg, &ifaces(), &svc, 60, false);
    fsm.send_unsolicited(&reg, &ifaces(), &svc, 0, false);
    let first = fsm.pop_outgoing().unwrap();
    fsm.push_front_outgoing(first.clone());
    assert_eq!(fsm.pop_outgoing().unwrap(), first);
    let second = fsm.pop_outgoing().unwrap();
    assert_eq!(Packet::parse(&second.0).unwrap().answers[0].ttl, 0);
    assert!(fsm.pop_outgoing().is_none());
}

#[test]
fn send_outcomes_decide_what_stays_queued() {
    let mut reg = registry();
    http_service(&mut reg);
    let svc = service_data("_http._tcp", "Web Server", 80, &[]).unwrap();
    let mut fsm = FSMState::<Inet>::new();
    fsm.send_unsolicited(&reg, &ifaces(), &svc, 60, false);
    let d = fsm.pop_outgoing().unwrap();
    assert!(!fsm.after_send(d.clone(), SendOutcome::WouldBlock));
    let again = fsm.pop_outgoing().unwrap();
    assert_eq!(again, d);
    assert!(fsm.after_send(again, SendOutcome::Failed));
    assert!(fsm.pop_outgoing().is_none());
}

#[test]
fn any_type_query_on_hostname_gives_addresses() {
    let reg = registry();
    let mut fsm = FSMState::<Inet6>::new();
    let q = packet(8, 0, &[("host.local", 255, CLASS_IN)]);
    fsm.handle_packet(&reg, &ifaces(), &q, peer());
    let out = drain(&mut fsm);
    assert_eq!(out.len(), 1);
    assert_eq!(types_of(&Packet::parse(&out[0].0).unwrap().answers), vec!["AAAA"]);
}

#[test]
fn empty_txt_entries_are_left_out() {
    assert_eq!(encode_txt(&["a", ""]).unwrap(), vec![1u8, b'a']);
    assert_eq!(encode_txt(&["", "bc", ""]).unwrap(), vec![2u8, b'b', b'c']);
    assert_eq!(encode_txt(&[""]).unwrap(), vec![0u8]);
    assert_eq!(encode_txt(&["", ""]).unwrap(), vec![0u8]);
}

#[test]
fn unregistered_id_is_gone_and_type_kept_while_shared() {
    let mut reg = registry();
    let a = http_service(&mut reg);
    let b = http_service(&mut reg);
    assert!(reg.unregister(a).is_some());
    assert!(reg.unregister(a).is_none());
    let types: Vec<String> = reg.types_iter().iter().map(dotted).collect();
    assert_eq!(types, vec!["_http._tcp.local"]);
    assert!(reg.unregister(b).is_some());
    assert!(reg.types_iter().is_empty());
}
