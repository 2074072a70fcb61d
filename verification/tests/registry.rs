use cilium_lb::registry::{
    add, add_backend, del, del_service, list, list_services, plan_add, plan_del, AddOutcome,
    AddPlan, BackendListing, RegistryError, ServiceListing,
};
use cilium_lb::report::{
    add_message, cause, del_messages, headline, render_listing, report, report_error,
};
use cilium_lb::service::{
    decode_backend, encode_backend, encode_frontend, CodecError, Endpoint,
};
use cilium_lb::table::{Entry, Table, TableError};

const INDENT: &str = "                       ";

fn ep(text: &str) -> Endpoint {
    Endpoint::parse(text).unwrap()
}

fn key(service: &str, slave: u32) -> Vec<u8> {
    let e = ep(service);
    encode_frontend(e.address, e.port as u32, slave).unwrap()
}

fn value(target: &str, weight: u32) -> Vec<u8> {
    let e = ep(target);
    encode_backend(e.address, e.port as u32, weight).unwrap()
}

fn master_count(t: &Table, service: &str) -> Option<u32> {
    t.lookup(&key(service, 0)).map(|v| decode_backend(&v).unwrap().2)
}

fn contents(t: &Table) -> Vec<(Vec<u8>, Vec<u8>)> {
    let mut all: Vec<(Vec<u8>, Vec<u8>)> =
        t.entries().into_iter().map(|e| (e.key, e.value)).collect();
    all.sort();
    all
}

fn shown(v: &[ServiceListing]) -> Vec<(String, Vec<(u16, String)>)> {
    v.iter()
        .map(|s| {
            (
                s.frontend.to_text(),
                s.backends.iter().map(|b| (b.index, b.target.to_text())).collect(),
            )
        })
        .collect()
}

#[test]
fn first_add_writes_master_and_slave() {
    let mut t = Table::new(8, 8, 16);
    assert_eq!(add(&mut t, "10.0.0.1:80", "10.0.0.2:8080"), Ok(AddOutcome::Added { index: 1 }));
    assert_eq!(t.len(), 2);
    assert_eq!(t.lookup(&key("10.0.0.1:80", 0)), Some(vec![0, 0, 0, 0, 0, 0, 1, 0]));
    assert_eq!(t.lookup(&key("10.0.0.1:80", 1)), Some(value("10.0.0.2:8080", 1)));
    assert_eq!(t.lookup(&key("10.0.0.1:80", 1)), Some(vec![10, 0, 0, 2, 0x1f, 0x90, 1, 0]));
}

#[test]
fn add_is_idempotent() {
    let mut t = Table::new(8, 8, 16);
    assert_eq!(add(&mut t, "10.0.0.1:80", "10.0.0.2:8080"), Ok(AddOutcome::Added { index: 1 }));
    let before = contents(&t);
    assert_eq!(add(&mut t, "10.0.0.1:80", "10.0.0.2:8080"), Ok(AddOutcome::AlreadyPresent));
    assert_eq!(contents(&t), before);
    assert_eq!(
        add_message(AddOutcome::AlreadyPresent, ep("10.0.0.1:80"), ep("10.0.0.2:8080")),
        "Backend already in the list."
    );
}

#[test]
fn indices_are_handed_out_in_order() {
    let mut t = Table::new(8, 8, 64);
    for n in 1..=20u16 {
        let backend = format!("10.0.1.{}:8080", n);
        assert_eq!(add(&mut t, "10.0.0.1:80", &backend), Ok(AddOutcome::Added { index: n }));
        assert_eq!(master_count(&t, "10.0.0.1:80"), Some(n as u32));
        for s in 1..=n {
            let target = format!("10.0.1.{}:8080", s);
            assert_eq!(t.lookup(&key("10.0.0.1:80", s as u32)), Some(value(&target, 1)));
        }
        assert_eq!(t.lookup(&key("10.0.0.1:80", n as u32 + 1)), None);
        assert_eq!(t.len(), n as usize + 1);
    }
}

#[test]
fn master_exists_after_every_add() {
    let mut t = Table::new(8, 8, 64);
    for (service, backend) in [
        ("10.0.0.1:80", "10.0.0.2:80"),
        ("10.0.0.1:81", "10.0.0.2:80"),
        ("10.0.0.1:80", "10.0.0.3:80"),
        ("10.0.0.1:80", "10.0.0.2:80"),
        ("10.0.0.9:80", "10.0.0.2:80"),
    ] {
        assert!(add(&mut t, service, backend).is_ok());
        assert!(t.lookup(&key(service, 0)).is_some());
    }
    assert_eq!(master_count(&t, "10.0.0.1:80"), Some(2));
    assert_eq!(master_count(&t, "10.0.0.1:81"), Some(1));
    assert_eq!(master_count(&t, "10.0.0.9:80"), Some(1));
}

#[test]
fn duplicate_backend_gets_no_second_slave() {
    let mut t = Table::new(8, 8, 64);
    add(&mut t, "10.0.0.1:80", "10.0.0.2:80").unwrap();
    add(&mut t, "10.0.0.1:80", "10.0.0.3:80").unwrap();
    add(&mut t, "10.0.0.1:80", "10.0.0.4:80").unwrap();
    assert_eq!(add(&mut t, "10.0.0.1:80", "10.0.0.3:80"), Ok(AddOutcome::AlreadyPresent));
    assert_eq!(add(&mut t, "10.0.0.1:80", "10.0.0.2:80"), Ok(AddOutcome::AlreadyPresent));
    assert_eq!(t.len(), 4);
    assert_eq!(master_count(&t, "10.0.0.1:80"), Some(3));
    let listing = list(&t).unwrap();
    assert_eq!(listing.len(), 1);
    let targets: Vec<String> = listing[0].backends.iter().map(|b| b.target.to_text()).collect();
    assert_eq!(targets, vec!["10.0.0.2:80", "10.0.0.3:80", "10.0.0.4:80"]);
    // The same backend under another service is another matter.
    assert_eq!(add(&mut t, "10.0.0.1:81", "10.0.0.3:80"), Ok(AddOutcome::Added { index: 1 }));
    // So is the same address at another port.
    assert_eq!(add(&mut t, "10.0.0.1:80", "10.0.0.3:81"), Ok(AddOutcome::Added { index: 4 }));
}

#[test]
fn master_count_equals_the_number_of_adds() {
    let mut t = Table::new(8, 8, 600);
    for k in 1..=300u32 {
        let backend = format!("10.1.{}.{}:9000", k / 256, k % 256);
        assert_eq!(
            add(&mut t, "192.168.0.1:443", &backend),
            Ok(AddOutcome::Added { index: k as u16 })
        );
        assert_eq!(master_count(&t, "192.168.0.1:443"), Some(k));
    }
}

#[test]
fn next_index_follows_the_highest_one() {
    let mut t = Table::new(8, 8, 16);
    t.insert(&key("10.0.0.1:80", 5), &value("10.0.0.5:80", 1)).unwrap();
    t.insert(&key("10.0.0.1:80", 2), &value("10.0.0.2:80", 1)).unwrap();
    t.insert(&key("10.0.0.2:80", 9), &value("10.0.0.9:80", 1)).unwrap();
    assert_eq!(add(&mut t, "10.0.0.1:80", "10.0.0.6:80"), Ok(AddOutcome::Added { index: 6 }));
    assert_eq!(master_count(&t, "10.0.0.1:80"), Some(6));
}

#[test]
fn index_is_reused_once_the_slaves_are_gone() {
    let mut t = Table::new(8, 8, 16);
    add(&mut t, "10.0.0.1:80", "10.0.0.2:80").unwrap();
    add(&mut t, "10.0.0.1:80", "10.0.0.3:80").unwrap();
    assert_eq!(del(&mut t, "10.0.0.1:80"), Ok(vec![1, 2]));
    assert_eq!(add(&mut t, "10.0.0.1:80", "10.0.0.4:80"), Ok(AddOutcome::Added { index: 1 }));
    assert_eq!(master_count(&t, "10.0.0.1:80"), Some(1));
}

#[test]
fn add_refuses_malformed_addresses() {
    let mut t = Table::new(8, 8, 16);
    assert_eq!(add(&mut t, "10.0.0.1", "10.0.0.2:80"), Err(RegistryError::ServiceAddress));
    assert_eq!(add(&mut t, "10.0.0.1:80", "nonsense"), Err(RegistryError::BackendAddress));
    assert_eq!(add(&mut t, "", ""), Err(RegistryError::ServiceAddress));
    assert_eq!(t.len(), 0);
    assert_eq!(del(&mut t, "10.0.0.1:"), Err(RegistryError::ServiceAddress));
}

#[test]
fn add_fails_when_the_table_is_full() {
    let mut none = Table::new(8, 8, 0);
    assert_eq!(
        add(&mut none, "10.0.0.1:80", "10.0.0.2:80"),
        Err(RegistryError::Table(TableError::Full))
    );
    assert_eq!(none.len(), 0);

    // The master fits, the slave does not: the master stays.
    let mut one = Table::new(8, 8, 1);
    assert_eq!(
        add(&mut one, "10.0.0.1:80", "10.0.0.2:80"),
        Err(RegistryError::Table(TableError::Full))
    );
    assert_eq!(one.len(), 1);
    assert_eq!(master_count(&one, "10.0.0.1:80"), Some(1));
    assert_eq!(one.lookup(&key("10.0.0.1:80", 1)), None);

    // The master is there already and is overwritten; the slave does not fit.
    let mut t = Table::new(8, 8, 3);
    add(&mut t, "10.0.0.1:80", "10.0.0.2:80").unwrap();
    add(&mut t, "10.0.0.1:80", "10.0.0.3:80").unwrap();
    assert_eq!(
        add(&mut t, "10.0.0.1:80", "10.0.0.4:80"),
        Err(RegistryError::Table(TableError::Full))
    );
    assert_eq!(master_count(&t, "10.0.0.1:80"), Some(3));
    assert_eq!(t.len(), 3);
}

#[test]
fn add_fails_on_a_table_of_another_shape() {
    let mut empty = Table::new(4, 8, 16);
    assert_eq!(
        add(&mut empty, "10.0.0.1:80", "10.0.0.2:80"),
        Err(RegistryError::Table(TableError::KeySize))
    );
    let mut empty = Table::new(8, 12, 16);
    assert_eq!(
        add(&mut empty, "10.0.0.1:80", "10.0.0.2:80"),
        Err(RegistryError::Table(TableError::ValueSize))
    );
    let mut t = Table::new(8, 12, 16);
    t.insert(&[0; 8], &[0; 12]).unwrap();
    assert_eq!(
        add(&mut t, "10.0.0.1:80", "10.0.0.2:80"),
        Err(RegistryError::Codec(CodecError::WrongLength))
    );
    assert_eq!(list(&t).err(), Some(RegistryError::Codec(CodecError::WrongLength)));
    // A delete reads the keys only.
    assert_eq!(del(&mut t, "10.0.0.1:80"), Ok(vec![]));
    let mut t = Table::new(4, 8, 16);
    t.insert(&[0; 4], &[0; 8]).unwrap();
    assert_eq!(
        del(&mut t, "10.0.0.1:80"),
        Err(RegistryError::Codec(CodecError::WrongLength))
    );
    assert_eq!(t.len(), 1);
}

#[test]
fn add_fails_when_the_indices_are_used_up() {
    let mut t = Table::new(8, 8, 16);
    t.insert(&key("10.0.0.1:80", 65535), &value("10.0.0.5:80", 1)).unwrap();
    let before = contents(&t);
    assert_eq!(
        add(&mut t, "10.0.0.1:80", "10.0.0.6:80"),
        Err(RegistryError::Codec(CodecError::WeightOutOfRange))
    );
    assert_eq!(contents(&t), before);
    assert_eq!(add(&mut t, "10.0.0.1:80", "10.0.0.5:80"), Ok(AddOutcome::AlreadyPresent));
}

#[test]
fn del_removes_every_slave_and_leaves_the_master() {
    let mut t = Table::new(8, 8, 64);
    for n in 1..=5 {
        add(&mut t, "10.0.0.1:80", &format!("10.0.0.{}:80", n + 1)).unwrap();
    }
    add(&mut t, "10.0.0.1:81", "10.0.0.2:80").unwrap();
    add(&mut t, "10.0.0.2:80", "10.0.0.2:80").unwrap();
    assert_eq!(del(&mut t, "10.0.0.1:80"), Ok(vec![1, 2, 3, 4, 5]));
    for s in 1..=65535u32 {
        assert_eq!(t.lookup(&key("10.0.0.1:80", s)), None);
    }
    // Known gap: the master record stays behind, with its old count.
    assert_eq!(master_count(&t, "10.0.0.1:80"), Some(5));
    // Other services are untouched.
    assert_eq!(t.lookup(&key("10.0.0.1:81", 1)), Some(value("10.0.0.2:80", 1)));
    assert_eq!(t.lookup(&key("10.0.0.2:80", 1)), Some(value("10.0.0.2:80", 1)));
    assert_eq!(master_count(&t, "10.0.0.1:81"), Some(1));
    assert_eq!(t.len(), 5);
    // The service is still listed, without backends.
    assert_eq!(
        shown(&list(&t).unwrap()),
        vec![
            ("10.0.0.1:80".to_string(), vec![]),
            ("10.0.0.1:81".to_string(), vec![(1, "10.0.0.2:80".to_string())]),
            ("10.0.0.2:80".to_string(), vec![(1, "10.0.0.2:80".to_string())]),
        ]
    );
}

#[test]
fn del_of_an_unknown_service_deletes_nothing() {
    let mut t = Table::new(8, 8, 16);
    add(&mut t, "10.0.0.2:80", "10.0.0.3:80").unwrap();
    let before = contents(&t);
    let deleted = del(&mut t, "10.0.0.1:80").unwrap();
    assert!(deleted.is_empty());
    assert_eq!(contents(&t), before);
    assert_eq!(
        del_messages(ep("10.0.0.1:80"), &deleted),
        vec!["No service with address 10.0.0.1:80 found. Nothing deleted.".to_string()]
    );
    let mut empty = Table::new(8, 8, 16);
    assert_eq!(del_service(&mut empty, ep("10.0.0.1:80")), Ok(vec![]));
}

#[test]
fn del_reports_each_slave() {
    let mut t = Table::new(8, 8, 16);
    t.insert(&key("10.0.0.1:80", 7), &value("10.0.0.7:80", 1)).unwrap();
    t.insert(&key("10.0.0.1:80", 300), &value("10.0.0.8:80", 1)).unwrap();
    t.insert(&key("10.0.0.1:80", 2), &value("10.0.0.2:80", 1)).unwrap();
    let deleted = del(&mut t, "10.0.0.1:80").unwrap();
    assert_eq!(deleted, vec![2, 7, 300]);
    assert_eq!(t.len(), 0);
    assert_eq!(
        del_messages(ep("10.0.0.1:80"), &deleted),
        vec![
            "Deleting service 10.0.0.1:80 slave 2".to_string(),
            "Deleting service 10.0.0.1:80 slave 7".to_string(),
            "Deleting service 10.0.0.1:80 slave 300".to_string(),
        ]
    );
}

#[test]
fn two_adds_then_list() {
    let mut t = Table::new(8, 8, 16);
    let first = add(&mut t, "10.0.0.1:80", "10.0.0.2:8080").unwrap();
    let second = add(&mut t, "10.0.0.1:80", "10.0.0.3:8080").unwrap();
    assert_eq!(
        add_message(first, ep("10.0.0.1:80"), ep("10.0.0.2:8080")),
        "Adding backend 10.0.0.2:8080 slave 1 for frontend 10.0.0.1:80"
    );
    assert_eq!(
        add_message(second, ep("10.0.0.1:80"), ep("10.0.0.3:8080")),
        "Adding backend 10.0.0.3:8080 slave 2 for frontend 10.0.0.1:80"
    );
    let listing = list(&t).unwrap();
    assert_eq!(
        shown(&listing),
        vec![(
            "10.0.0.1:80".to_string(),
            vec![(1, "10.0.0.2:8080".to_string()), (2, "10.0.0.3:8080".to_string())]
        )]
    );
    assert_eq!(
        render_listing(&listing),
        format!(
            "10.0.0.1:80 ->\n{}(1) 10.0.0.2:8080\n{}(2) 10.0.0.3:8080\n",
            INDENT, INDENT
        )
    );
}

#[test]
fn del_on_an_empty_table_reports_nothing_deleted() {
    let mut t = Table::new(8, 8, 16);
    let deleted = del(&mut t, "10.0.0.1:80").unwrap();
    assert_eq!(deleted, Vec::<u16>::new());
    assert_eq!(
        del_messages(ep("10.0.0.1:80"), &deleted),
        vec!["No service with address 10.0.0.1:80 found. Nothing deleted.".to_string()]
    );
    assert_eq!(t.len(), 0);
}

#[test]
fn list_orders_services_and_backends() {
    let mut t = Table::new(8, 8, 64);
    add(&mut t, "10.0.0.2:80", "10.9.0.1:1").unwrap();
    add(&mut t, "10.0.0.1:443", "10.9.0.2:1").unwrap();
    add(&mut t, "10.0.0.1:80", "10.9.0.3:1").unwrap();
    add(&mut t, "10.0.0.1:80", "10.9.0.1:1").unwrap();
    add(&mut t, "9.255.255.255:65535", "10.9.0.1:1").unwrap();
    assert_eq!(
        shown(&list(&t).unwrap()),
        vec![
            ("9.255.255.255:65535".to_string(), vec![(1, "10.9.0.1:1".to_string())]),
            (
                "10.0.0.1:80".to_string(),
                vec![(1, "10.9.0.3:1".to_string()), (2, "10.9.0.1:1".to_string())]
            ),
            ("10.0.0.1:443".to_string(), vec![(1, "10.9.0.2:1".to_string())]),
            ("10.0.0.2:80".to_string(), vec![(1, "10.9.0.1:1".to_string())]),
        ]
    );
    assert!(list(&Table::new(8, 8, 4)).unwrap().is_empty());
    assert_eq!(render_listing(&Vec::new()), "");
}

#[test]
fn list_services_groups_a_raw_scan() {
    let scan = vec![
        Entry { key: key("10.0.0.1:80", 2), value: value("10.0.0.3:80", 1) },
        Entry { key: key("10.0.0.1:80", 0), value: vec![0, 0, 0, 0, 0, 0, 2, 0] },
        Entry { key: key("10.0.0.1:80", 1), value: value("10.0.0.2:80", 1) },
        // A torn scan may show a key twice.
        Entry { key: key("10.0.0.1:80", 1), value: value("10.0.0.2:80", 1) },
        Entry { key: key("10.0.0.1:80", 1), value: value("10.0.0.1:80", 1) },
        Entry { key: key("10.0.0.0:80", 0), value: vec![0; 8] },
    ];
    assert_eq!(
        shown(&list_services(&scan).unwrap()),
        vec![
            ("10.0.0.0:80".to_string(), vec![]),
            (
                "10.0.0.1:80".to_string(),
                vec![
                    (1, "10.0.0.1:80".to_string()),
                    (1, "10.0.0.2:80".to_string()),
                    (2, "10.0.0.3:80".to_string())
                ]
            ),
        ]
    );
    let bad = vec![Entry { key: vec![0; 8], value: vec![0; 7] }];
    assert_eq!(list_services(&bad).err(), Some(CodecError::WrongLength));
    let bad = vec![Entry { key: vec![0; 9], value: vec![0; 8] }];
    assert_eq!(list_services(&bad).err(), Some(CodecError::WrongLength));
}

#[test]
fn plan_add_decides_from_a_scan() {
    let service = ep("10.0.0.1:80");
    let scan = vec![
        Entry { key: key("10.0.0.1:80", 3), value: value("10.0.0.3:80", 1) },
        Entry { key: key("10.0.0.1:80", 0), value: vec![0, 0, 0, 0, 0, 0, 3, 0] },
        Entry { key: key("10.0.0.2:80", 9), value: value("10.0.0.9:80", 1) },
    ];
    match plan_add(&scan, service, ep("10.0.0.4:80")).unwrap() {
        AddPlan::Insert { index, master, slave } => {
            assert_eq!(index, 4);
            assert_eq!(master.key, key("10.0.0.1:80", 0));
            assert_eq!(master.value, vec![0, 0, 0, 0, 0, 0, 4, 0]);
            assert_eq!(slave.key, key("10.0.0.1:80", 4));
            assert_eq!(slave.value, value("10.0.0.4:80", 1));
        }
        AddPlan::AlreadyPresent => panic!("the backend is new"),
    }
    assert!(matches!(
        plan_add(&scan, service, ep("10.0.0.3:80")),
        Ok(AddPlan::AlreadyPresent)
    ));
    // A master record that happens to hold the backend's address is no slave.
    let masters = vec![Entry { key: key("10.0.0.1:80", 0), value: value("10.0.0.3:80", 1) }];
    assert!(matches!(
        plan_add(&masters, service, ep("10.0.0.3:80")),
        Ok(AddPlan::Insert { index: 1, .. })
    ));
    assert!(matches!(
        plan_add(&Vec::new(), service, ep("10.0.0.3:80")),
        Ok(AddPlan::Insert { index: 1, .. })
    ));
}

#[test]
fn plan_add_stops_at_the_first_entry_that_ends_the_scan() {
    let service = ep("10.0.0.1:80");
    let backend = ep("10.0.0.3:80");
    let hit = Entry { key: key("10.0.0.1:80", 3), value: value("10.0.0.3:80", 1) };
    let again = Entry { key: key("10.0.0.1:80", 3), value: value("10.0.0.3:80", 1) };
    let bad = Entry { key: vec![1, 2, 3], value: vec![0; 8] };
    let worse = Entry { key: vec![1, 2, 3], value: vec![0; 8] };
    assert!(matches!(plan_add(&vec![hit, bad], service, backend), Ok(AddPlan::AlreadyPresent)));
    assert_eq!(
        plan_add(&vec![worse, again], service, backend).err(),
        Some(CodecError::WrongLength)
    );
}

#[test]
fn plan_del_collects_the_slaves_in_order() {
    let scan = vec![
        Entry { key: key("10.0.0.1:80", 9), value: vec![] },
        Entry { key: key("10.0.0.1:80", 0), value: vec![] },
        Entry { key: key("10.0.0.1:81", 4), value: vec![] },
        Entry { key: key("10.0.0.1:80", 2), value: vec![] },
        Entry { key: key("10.0.0.1:80", 9), value: vec![] },
        Entry { key: key("10.0.0.2:80", 5), value: vec![] },
    ];
    assert_eq!(plan_del(&scan, ep("10.0.0.1:80")), Ok(vec![2, 9]));
    assert_eq!(plan_del(&scan, ep("10.0.0.1:81")), Ok(vec![4]));
    assert_eq!(plan_del(&scan, ep("10.0.0.3:80")), Ok(vec![]));
    let bad = vec![Entry { key: vec![0; 7], value: vec![0; 8] }];
    assert_eq!(plan_del(&bad, ep("10.0.0.1:80")), Err(CodecError::WrongLength));
}

#[test]
fn add_backend_takes_endpoints() {
    let mut t = Table::new(8, 8, 16);
    let service = Endpoint { address: 0x0a00_0001, port: 80 };
    let backend = Endpoint { address: 0x0a00_0002, port: 8080 };
    assert_eq!(add_backend(&mut t, service, backend), Ok(AddOutcome::Added { index: 1 }));
    assert_eq!(add_backend(&mut t, service, backend), Ok(AddOutcome::AlreadyPresent));
    assert_eq!(
        list(&t).unwrap()[0].backends,
        vec![BackendListing { index: 1, target: backend }]
    );
}

#[test]
fn errors_are_reported_with_their_cause() {
    assert_eq!(
        report_error(RegistryError::ServiceAddress),
        "error: Failed to parse service address\n   caused by: invalid socket address syntax\n"
    );
    assert_eq!(
        report_error(RegistryError::BackendAddress),
        "error: Failed to parse backend address\n   caused by: invalid socket address syntax\n"
    );
    assert_eq!(
        report_error(RegistryError::Table(TableError::Full)),
        "error: Map operation failed\n   caused by: map is full\n"
    );
    assert_eq!(
        report_error(RegistryError::Codec(CodecError::WrongLength)),
        "error: Failed to encode or decode a record\n   caused by: record has the wrong length\n"
    );
    assert_eq!(headline(RegistryError::Table(TableError::NotFound)), "Map operation failed");
    assert_eq!(cause(RegistryError::Table(TableError::NotFound)), "no such entry");
    assert_eq!(cause(RegistryError::Table(TableError::KeySize)), "key has the wrong size");
    assert_eq!(cause(RegistryError::Table(TableError::ValueSize)), "value has the wrong size");
    assert_eq!(
        cause(RegistryError::Codec(CodecError::PortOutOfRange)),
        "port does not fit in 16 bits"
    );
    assert_eq!(
        cause(RegistryError::Codec(CodecError::SlaveOutOfRange)),
        "slave index does not fit in 16 bits"
    );
    assert_eq!(
        cause(RegistryError::Codec(CodecError::WeightOutOfRange)),
        "weight or count does not fit in 16 bits"
    );
}

#[test]
fn report_lists_the_causes_in_order() {
    assert_eq!(report("Failed to parse info about map", &vec![]), "error: Failed to parse info about map\n");
    assert_eq!(
        report("top", &vec!["middle".to_string(), "bottom".to_string()]),
        "error: top\n   caused by: middle\n   caused by: bottom\n"
    );
}
