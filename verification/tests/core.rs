use zeronsd::config::{plan_listeners, supervise, unsupervise, ConfigError};
use zeronsd::ip::{parse_cidr, Cidr, Ip};
use zeronsd::ptr::{PtrAuthority, PtrAuthoritySet};
use zeronsd::record::{Member, Record, RecordData, QTYPE_A, QTYPE_AAAA, QTYPE_PTR};
use zeronsd::revname::{parse_reverse, reverse_labels};
use zeronsd::sync::{resolve_members, tick, RawMember};
use zeronsd::wire::handle_datagram;
use zeronsd::zone::ZoneAuthority;

fn bytes(s: &str) -> Vec<u8> {
    s.as_bytes().to_vec()
}

fn labels(parts: &[&str]) -> Vec<Vec<u8>> {
    parts.iter().map(|p| p.as_bytes().to_vec()).collect()
}

fn member(id: &str, display: &str, addrs: &[Ip], online: bool) -> Member {
    Member { id: bytes(id), display: bytes(display), addrs: addrs.to_vec(), online }
}

fn domain() -> Vec<Vec<u8>> {
    labels(&["home", "arpa"])
}

fn fresh_authorities() -> (ZoneAuthority, PtrAuthority) {
    let zone = ZoneAuthority::new(domain(), false);
    let subnet = Cidr { ip: Ip::V4(0x0a00_0000), prefix: 24 };
    let ptr = PtrAuthority::new(&subnet);
    (zone, ptr)
}

fn query(parts: &[&[u8]], qtype: u16) -> Vec<u8> {
    let mut d = vec![0x12u8, 0x34, 0x00, 0x00, 0x00, 0x01, 0x00, 0x00, 0x00, 0x00, 0x00, 0x00];
    for p in parts {
        d.push(p.len() as u8);
        d.extend_from_slice(p);
    }
    d.push(0);
    d.push((qtype / 256) as u8);
    d.push((qtype % 256) as u8);
    d.push(0);
    d.push(1);
    d
}

fn a_query(parts: &[&str], qtype: u16) -> Vec<u8> {
    let owned: Vec<Vec<u8>> = parts.iter().map(|p| p.as_bytes().to_vec()).collect();
    let refs: Vec<&[u8]> = owned.iter().map(|p| p.as_slice()).collect();
    query(&refs, qtype)
}

fn answer_count(resp: &[u8]) -> u16 {
    (resp[6] as u16) * 256 + resp[7] as u16
}

#[test]
fn tick_installs_member_records() {
    let (mut zone, mut ptr) = fresh_authorities();
    let members = vec![
        member("deadbeef01", "Laptop", &[Ip::V4(0x0a00_0001)], true),
        member("deadbeef02", "Phone", &[Ip::V4(0x0a00_0002)], true),
        member("deadbeef03", "Offline", &[Ip::V4(0x0a00_0003)], false),
        member("deadbeef04", "NoAddrs", &[], true),
    ];
    assert!(tick(&mut zone, &mut ptr, Some(members), &Vec::new()));

    let found = zone.lookup(&labels(&["laptop", "home", "arpa"]), QTYPE_A);
    assert_eq!(found.len(), 1);
    assert!(matches!(found[0].data, RecordData::A(0x0a00_0001)));

    let found = zone.lookup(&labels(&["phone", "home", "arpa"]), QTYPE_A);
    assert_eq!(found.len(), 1);

    // the offline member and the addressless member get no records
    assert_eq!(zone.lookup(&labels(&["offline", "home", "arpa"]), QTYPE_A).len(), 0);
    assert_eq!(zone.lookup(&labels(&["noaddrs", "home", "arpa"]), QTYPE_A).len(), 0);
}

#[test]
fn absent_member_disappears_next_tick() {
    let (mut zone, mut ptr) = fresh_authorities();
    let first = vec![
        member("deadbeef01", "Laptop", &[Ip::V4(0x0a00_0001)], true),
        member("deadbeef02", "Phone", &[Ip::V4(0x0a00_0002)], true),
    ];
    assert!(tick(&mut zone, &mut ptr, Some(first), &Vec::new()));
    assert_eq!(zone.lookup(&labels(&["phone", "home", "arpa"]), QTYPE_A).len(), 1);

    let second = vec![member("deadbeef01", "Laptop", &[Ip::V4(0x0a00_0001)], true)];
    assert!(tick(&mut zone, &mut ptr, Some(second), &Vec::new()));
    assert_eq!(zone.lookup(&labels(&["phone", "home", "arpa"]), QTYPE_A).len(), 0);
    assert_eq!(zone.lookup(&labels(&["laptop", "home", "arpa"]), QTYPE_A).len(), 1);
}

#[test]
fn replace_is_wholesale() {
    let (mut zone, mut ptr) = fresh_authorities();
    let set_a = vec![
        member("aaaaaaaaaa", "alpha", &[Ip::V4(0x0a00_0010)], true),
        member("bbbbbbbbbb", "beta", &[Ip::V4(0x0a00_0011)], true),
    ];
    let set_b = vec![
        member("cccccccccc", "gamma", &[Ip::V4(0x0a00_0012)], true),
        member("dddddddddd", "delta", &[Ip::V4(0x0a00_0013)], true),
    ];
    assert!(tick(&mut zone, &mut ptr, Some(set_a), &Vec::new()));
    assert_eq!(zone.lookup(&labels(&["alpha", "home", "arpa"]), QTYPE_A).len(), 1);
    assert_eq!(zone.lookup(&labels(&["beta", "home", "arpa"]), QTYPE_A).len(), 1);
    assert_eq!(zone.lookup(&labels(&["gamma", "home", "arpa"]), QTYPE_A).len(), 0);

    assert!(tick(&mut zone, &mut ptr, Some(set_b), &Vec::new()));
    // the whole old set is gone, the whole new set is there: no mixture
    assert_eq!(zone.lookup(&labels(&["alpha", "home", "arpa"]), QTYPE_A).len(), 0);
    assert_eq!(zone.lookup(&labels(&["beta", "home", "arpa"]), QTYPE_A).len(), 0);
    assert_eq!(zone.lookup(&labels(&["gamma", "home", "arpa"]), QTYPE_A).len(), 1);
    assert_eq!(zone.lookup(&labels(&["delta", "home", "arpa"]), QTYPE_A).len(), 1);
}

#[test]
fn hostname_collision_gets_unique_names() {
    let (mut zone, mut ptr) = fresh_authorities();
    let members = vec![
        member("aaaaaaaaaa", "Server", &[Ip::V4(0x0a00_0001)], true),
        member("bbbbbbbbbb", "Server", &[Ip::V4(0x0a00_0002)], true),
    ];
    assert!(tick(&mut zone, &mut ptr, Some(members), &Vec::new()));
    let plain = zone.lookup(&labels(&["server", "home", "arpa"]), QTYPE_A);
    assert_eq!(plain.len(), 1);
    assert!(matches!(plain[0].data, RecordData::A(0x0a00_0001)));
    let suffixed = zone.lookup(&labels(&["server-bbbbbbbbbb", "home", "arpa"]), QTYPE_A);
    assert_eq!(suffixed.len(), 1);
    assert!(matches!(suffixed[0].data, RecordData::A(0x0a00_0002)));
}

#[test]
fn sanitization_folds_case_and_symbols() {
    let (mut zone, mut ptr) = fresh_authorities();
    let members = vec![member("aaaaaaaaaa", "My Laptop", &[Ip::V4(0x0a00_0001)], true)];
    assert!(tick(&mut zone, &mut ptr, Some(members), &Vec::new()));
    assert_eq!(zone.lookup(&labels(&["my-laptop", "home", "arpa"]), QTYPE_A).len(), 1);
}

#[test]
fn ptr_round_trip() {
    let (mut zone, mut ptr) = fresh_authorities();
    let addr = Ip::V4(0x0a00_0001);
    let members = vec![member("deadbeef01", "Laptop", &[addr], true)];
    assert!(tick(&mut zone, &mut ptr, Some(members), &Vec::new()));

    // PTR(reverse(A)) resolves to the member's hostname
    let rev = reverse_labels(&addr);
    assert_eq!(parse_reverse(&rev), Some(addr));
    let refs: Vec<&[u8]> = rev.iter().map(|p| p.as_slice()).collect();
    let resp = handle_datagram(&query(&refs, QTYPE_PTR), &zone, &ptr).expect("a reply");
    assert_eq!(answer_count(&resp), 1);
    let tail: &[u8] = &[
        6, b'l', b'a', b'p', b't', b'o', b'p', 4, b'h', b'o', b'm', b'e', 4, b'a', b'r', b'p',
        b'a', 0,
    ];
    assert!(resp.windows(tail.len()).any(|w| w == tail));

    // and the hostname resolves back to A
    let resp = handle_datagram(&a_query(&["laptop", "home", "arpa"], QTYPE_A), &zone, &ptr)
        .expect("a reply");
    assert_eq!(answer_count(&resp), 1);
    let rdata: &[u8] = &[0, 4, 10, 0, 0, 1];
    assert!(resp.windows(rdata.len()).any(|w| w == rdata));
}

#[test]
fn ptr_round_trip_v6() {
    let addr = Ip::V6(0xfd00_0000_0000_0000_0000_0000_0000_0001u128);
    let rev = reverse_labels(&addr);
    assert_eq!(rev.len(), 34);
    assert_eq!(rev[0], b"1".to_vec());
    assert_eq!(rev[30], b"d".to_vec());
    assert_eq!(rev[31], b"f".to_vec());
    assert_eq!(parse_reverse(&rev), Some(addr));
}

#[test]
fn fetch_failure_keeps_previous_snapshot() {
    let (mut zone, mut ptr) = fresh_authorities();
    let members = vec![member("deadbeef01", "Laptop", &[Ip::V4(0x0a00_0001)], true)];
    assert!(tick(&mut zone, &mut ptr, Some(members), &Vec::new()));
    let q = a_query(&["laptop", "home", "arpa"], QTYPE_A);
    let before = handle_datagram(&q, &zone, &ptr).expect("a reply");

    // the fetch fails: the previous snapshot stays authoritative
    assert!(!tick(&mut zone, &mut ptr, None, &Vec::new()));
    let during = handle_datagram(&q, &zone, &ptr).expect("a reply");
    assert_eq!(before, during);

    // the next successful tick replaces it
    let members = vec![member("deadbeef01", "Laptop", &[Ip::V4(0x0a00_0009)], true)];
    assert!(tick(&mut zone, &mut ptr, Some(members), &Vec::new()));
    let after = handle_datagram(&q, &zone, &ptr).expect("a reply");
    assert_ne!(before, after);
    let rdata: &[u8] = &[0, 4, 10, 0, 0, 9];
    assert!(after.windows(rdata.len()).any(|w| w == rdata));
}

#[test]
fn malformed_datagram_gets_no_reply() {
    let (mut zone, mut ptr) = fresh_authorities();
    let members = vec![member("deadbeef01", "Laptop", &[Ip::V4(0x0a00_0001)], true)];
    assert!(tick(&mut zone, &mut ptr, Some(members), &Vec::new()));

    assert!(handle_datagram(&vec![0xff; 5], &zone, &ptr).is_none());
    assert!(handle_datagram(&vec![0x00; 12], &zone, &ptr).is_none());
    let mut bad = a_query(&["laptop", "home", "arpa"], QTYPE_A);
    bad[2] = 0x80; // a response, not a query
    assert!(handle_datagram(&bad, &zone, &ptr).is_none());

    // well-formed queries are still answered afterwards
    let resp = handle_datagram(&a_query(&["laptop", "home", "arpa"], QTYPE_A), &zone, &ptr)
        .expect("a reply");
    assert_eq!(answer_count(&resp), 1);
}

#[test]
fn unknown_name_answers_empty() {
    let (mut zone, mut ptr) = fresh_authorities();
    let members = vec![member("deadbeef01", "Laptop", &[Ip::V4(0x0a00_0001)], true)];
    assert!(tick(&mut zone, &mut ptr, Some(members), &Vec::new()));
    let resp = handle_datagram(&a_query(&["nosuch", "home", "arpa"], QTYPE_A), &zone, &ptr)
        .expect("a reply");
    assert_eq!(answer_count(&resp), 0);
    let resp = handle_datagram(&a_query(&["laptop", "home", "arpa"], 16), &zone, &ptr)
        .expect("a reply");
    assert_eq!(answer_count(&resp), 0);
}

#[test]
fn subnet_isolation() {
    // one authority per subnet; B's records never leak through A's authority
    let subnet_a = Cidr { ip: Ip::V4(0x0a00_0000), prefix: 24 };
    let subnet_b = Cidr { ip: Ip::V4(0x0a00_0100), prefix: 24 };
    let mut zone_a = ZoneAuthority::new(domain(), false);
    let mut zone_b = ZoneAuthority::new(domain(), false);
    let mut ptr_a = PtrAuthority::new(&subnet_a);
    let mut ptr_b = PtrAuthority::new(&subnet_b);
    let addr_b = Ip::V4(0x0a00_0101);
    let members = vec![member("deadbeef01", "Laptop", &[addr_b], true)];
    let members2 = vec![member("deadbeef01", "Laptop", &[addr_b], true)];
    assert!(tick(&mut zone_a, &mut ptr_a, Some(members), &Vec::new()));
    assert!(tick(&mut zone_b, &mut ptr_b, Some(members2), &Vec::new()));

    let rev = reverse_labels(&addr_b);
    let refs: Vec<&[u8]> = rev.iter().map(|p| p.as_slice()).collect();
    let on_a = handle_datagram(&query(&refs, QTYPE_PTR), &zone_a, &ptr_a).expect("a reply");
    assert_eq!(answer_count(&on_a), 0); // authoritative negative, no leak
    let on_b = handle_datagram(&query(&refs, QTYPE_PTR), &zone_b, &ptr_b).expect("a reply");
    assert_eq!(answer_count(&on_b), 1);
}

#[test]
fn ptr_authority_set_reuses_subnets() {
    let mut set = PtrAuthoritySet::new();
    let c1 = Cidr { ip: Ip::V4(0x0a00_0001), prefix: 24 };
    let c2 = Cidr { ip: Ip::V4(0x0a00_0002), prefix: 24 };
    let c3 = Cidr { ip: Ip::V4(0x0a00_0101), prefix: 24 };
    let i1 = set.register(&c1);
    let i2 = set.register(&c2);
    let i3 = set.register(&c3);
    assert_eq!(i1, i2); // same subnet reuses the authority
    assert_ne!(i1, i3);
    assert_eq!(set.auths.len(), 2);
}

#[test]
fn wildcard_mode_catches_names_under_domain() {
    let mut zone = ZoneAuthority::new(domain(), true);
    let subnet = Cidr { ip: Ip::V4(0x0a00_0000), prefix: 24 };
    let mut ptr = PtrAuthority::new(&subnet);
    let members = vec![member("deadbeef01", "Laptop", &[Ip::V4(0x0a00_0001)], true)];
    assert!(tick(&mut zone, &mut ptr, Some(members), &Vec::new()));
    let anything = zone.lookup(&labels(&["whatever", "home", "arpa"]), QTYPE_A);
    assert_eq!(anything.len(), 1);
    assert!(matches!(anything[0].data, RecordData::A(0x0a00_0001)));
    // a name outside the domain still answers empty
    assert_eq!(zone.lookup(&labels(&["whatever", "example", "com"]), QTYPE_A).len(), 0);
}

#[test]
fn static_hosts_are_merged_every_tick() {
    let (mut zone, mut ptr) = fresh_authorities();
    let hosts = vec![Record {
        name: labels(&["router", "home", "arpa"]),
        data: RecordData::A(0x0a00_00fe),
        ttl: 60,
    }];
    let members = vec![member("deadbeef01", "Laptop", &[Ip::V4(0x0a00_0001)], true)];
    assert!(tick(&mut zone, &mut ptr, Some(members), &hosts));
    assert_eq!(zone.lookup(&labels(&["router", "home", "arpa"]), QTYPE_A).len(), 1);
    assert_eq!(zone.lookup(&labels(&["laptop", "home", "arpa"]), QTYPE_A).len(), 1);
}

#[test]
fn resolve_members_drops_unusable_addrs() {
    let raw = vec![RawMember {
        id: bytes("deadbeef01"),
        display: bytes("Laptop"),
        addrs: vec!["10.0.0.1/24".to_string(), "bogus".to_string(), "fd00::1/64".to_string()],
        online: true,
    }];
    let members = resolve_members(raw);
    assert_eq!(members.len(), 1);
    assert_eq!(members[0].addrs.len(), 2);
    assert_eq!(members[0].addrs[0], Ip::V4(0x0a00_0001));
    assert_eq!(
        members[0].addrs[1],
        Ip::V6(0xfd00_0000_0000_0000_0000_0000_0000_0001u128)
    );
}

#[test]
fn aaaa_records_served() {
    let (mut zone, mut ptr) = fresh_authorities();
    let v6 = Ip::V6(0xfd00_0000_0000_0000_0000_0000_0000_0001u128);
    let members = vec![member("deadbeef01", "Laptop", &[v6], true)];
    assert!(tick(&mut zone, &mut ptr, Some(members), &Vec::new()));
    let found = zone.lookup(&labels(&["laptop", "home", "arpa"]), QTYPE_AAAA);
    assert_eq!(found.len(), 1);
    assert_eq!(zone.lookup(&labels(&["laptop", "home", "arpa"]), QTYPE_A).len(), 0);
}

#[test]
fn response_bytes_exact() {
    let (mut zone, mut ptr) = fresh_authorities();
    let members = vec![member("deadbeef01", "Laptop", &[Ip::V4(0x0a00_0001)], true)];
    assert!(tick(&mut zone, &mut ptr, Some(members), &Vec::new()));
    let resp = handle_datagram(&a_query(&["laptop", "home", "arpa"], QTYPE_A), &zone, &ptr)
        .expect("a reply");
    let mut want = vec![
        0x12u8, 0x34, // id echoed
        0x84, 0x00, // authoritative answer
        0x00, 0x01, // one question
        0x00, 0x01, // one answer
        0x00, 0x00, 0x00, 0x00, // no authority, no additional
    ];
    want.extend_from_slice(&[6]);
    want.extend_from_slice(b"laptop");
    want.extend_from_slice(&[4]);
    want.extend_from_slice(b"home");
    want.extend_from_slice(&[4]);
    want.extend_from_slice(b"arpa");
    want.extend_from_slice(&[0, 0x00, 0x01, 0x00, 0x01]); // qtype A, class IN
    want.extend_from_slice(&[0xc0, 0x0c]); // name pointer to the question
    want.extend_from_slice(&[0x00, 0x01, 0x00, 0x01]); // type A, class IN
    want.extend_from_slice(&[0x00, 0x00, 0x00, 0x3c]); // ttl 60
    want.extend_from_slice(&[0x00, 0x04, 10, 0, 0, 1]); // rdata
    assert_eq!(resp, want);
}

#[test]
fn plan_listeners_parses_and_dedups() {
    let plan = match plan_listeners(&vec![
        "10.0.0.1/24".to_string(),
        "10.0.0.2/24".to_string(),
        "10.0.1.1/24".to_string(),
    ]) {
        Ok(p) => p,
        Err(_) => panic!("plan refused"),
    };
    assert_eq!(plan.listeners.len(), 3);
    assert_eq!(plan.listeners[0].ip, Ip::V4(0x0a00_0001));
    assert_eq!(plan.listeners[0].subnet, Cidr { ip: Ip::V4(0x0a00_0000), prefix: 24 });
    assert_eq!(plan.subnets.len(), 2);
    assert_eq!(plan.subnets[0], Cidr { ip: Ip::V4(0x0a00_0000), prefix: 24 });
    assert_eq!(plan.subnets[1], Cidr { ip: Ip::V4(0x0a00_0100), prefix: 24 });
    assert_eq!(plan.first_v4, Ip::V4(0x0a00_0001));
}

#[test]
fn plan_listeners_errors() {
    assert!(matches!(plan_listeners(&Vec::new()), Err(ConfigError::NoListenAddrs)));
    assert!(matches!(
        plan_listeners(&vec!["not-an-address".to_string()]),
        Err(ConfigError::InvalidListenAddr)
    ));
    assert!(matches!(
        plan_listeners(&vec!["fd00::1/64".to_string()]),
        Err(ConfigError::NoIpv4)
    ));
}

#[test]
fn parse_cidr_through_plan() {
    // the address parser feeds the plan: host bits kept on the listener,
    // masked off on the subnet key
    let plan = match plan_listeners(&vec!["192.168.7.9/16".to_string()]) {
        Ok(p) => p,
        Err(_) => panic!("plan refused"),
    };
    assert_eq!(plan.listeners[0].ip, Ip::V4(0xc0a8_0709));
    assert_eq!(plan.listeners[0].subnet, Cidr { ip: Ip::V4(0xc0a8_0000), prefix: 16 });
}

#[test]
fn supervise_validates_options() {
    let props = match supervise(
        Some(bytes("zt.example")),
        Some(bytes("8056c2e21c000001")),
        None,
        None,
        Some(bytes("/var/lib/token")),
    ) {
        Ok(p) => p,
        Err(_) => panic!("valid options refused"),
    };
    assert_eq!(props.network, bytes("8056c2e21c000001"));
    assert_eq!(props.domain, labels(&["zt", "example"]));

    assert!(matches!(
        supervise(None, None, None, None, Some(bytes("/t"))),
        Err(ConfigError::MissingNetwork)
    ));
    assert!(matches!(
        supervise(None, Some(bytes("8056c2e21c000001")), None, None, None),
        Err(ConfigError::MissingToken)
    ));
    assert!(matches!(
        supervise(
            Some(bytes("bad..domain")),
            Some(bytes("8056c2e21c000001")),
            None,
            None,
            Some(bytes("/t")),
        ),
        Err(ConfigError::InvalidDomain)
    ));
}

#[test]
fn unsupervise_requires_network() {
    let props = match unsupervise(Some(bytes("8056c2e21c000001"))) {
        Ok(p) => p,
        Err(_) => panic!("valid options refused"),
    };
    assert_eq!(props.network, bytes("8056c2e21c000001"));
    assert_eq!(props.domain, labels(&["home", "arpa"]));
    assert!(matches!(unsupervise(None), Err(ConfigError::MissingNetwork)));
    assert!(matches!(unsupervise(Some(Vec::new())), Err(ConfigError::MissingNetwork)));
}

#[test]
fn parse_cidr_rejects_garbage() {
    assert_eq!(parse_cidr("10.0.0.1/24").map(|c| c.prefix), Some(24));
    assert!(parse_cidr("10.0.0.1/33").is_none());
    assert!(parse_cidr("").is_none());
    assert!(parse_cidr("hello").is_none());
}

#[test]
fn reverse_labels_v4_exact() {
    let rev = reverse_labels(&Ip::V4(0x0a00_0001)); // 10.0.0.1
    let want: Vec<Vec<u8>> = vec![
        b"1".to_vec(),
        b"0".to_vec(),
        b"0".to_vec(),
        b"10".to_vec(),
        b"in-addr".to_vec(),
        b"arpa".to_vec(),
    ];
    assert_eq!(rev, want);
    assert_eq!(parse_reverse(&rev), Some(Ip::V4(0x0a00_0001)));
}

#[test]
fn parse_reverse_rejects_bad_shapes() {
    // a non-canonical octet label
    let bad = labels(&["01", "0", "0", "10", "in-addr", "arpa"]);
    assert_eq!(parse_reverse(&bad), None);
    // an octet out of range
    let bad = labels(&["256", "0", "0", "10", "in-addr", "arpa"]);
    assert_eq!(parse_reverse(&bad), None);
    // the wrong suffix
    let bad = labels(&["1", "0", "0", "10", "in-addr", "example"]);
    assert_eq!(parse_reverse(&bad), None);
    // a forward name
    assert_eq!(parse_reverse(&labels(&["laptop", "home", "arpa"])), None);
}

#[test]
fn raw_members_flow_through_tick() {
    let (mut zone, mut ptr) = fresh_authorities();
    let raw = vec![
        RawMember {
            id: bytes("deadbeef01"),
            display: bytes("Laptop"),
            addrs: vec!["10.0.0.1/24".to_string(), "not-an-address".to_string()],
            online: true,
        },
        RawMember {
            id: bytes("deadbeef02"),
            display: bytes("Ghostly"),
            addrs: vec!["also bogus".to_string()],
            online: true,
        },
    ];
    assert!(tick(&mut zone, &mut ptr, Some(resolve_members(raw)), &Vec::new()));
    assert_eq!(zone.lookup(&labels(&["laptop", "home", "arpa"]), QTYPE_A).len(), 1);
    // a member whose every address is unusable is dropped from the set
    assert_eq!(zone.lookup(&labels(&["ghostly", "home", "arpa"]), QTYPE_A).len(), 0);
}
