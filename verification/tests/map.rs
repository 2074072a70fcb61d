use cilium_lb::map::{MapInfo, MapType, MetadataError};

#[test]
fn map_type_codes_name_the_kinds() {
    assert_eq!(MapType::from(0), MapType::Unspec);
    assert_eq!(MapType::from(1), MapType::Hash);
    assert_eq!(MapType::from(2), MapType::Array);
    assert_eq!(MapType::from(3), MapType::ProgArray);
    assert_eq!(MapType::from(4), MapType::PerfEventArray);
    assert_eq!(MapType::from(5), MapType::PerCPUHash);
    assert_eq!(MapType::from(6), MapType::PerCPUArray);
    assert_eq!(MapType::from(7), MapType::StackTrace);
    assert_eq!(MapType::from(8), MapType::CgroupArray);
    assert_eq!(MapType::from(9), MapType::LRUHash);
    assert_eq!(MapType::from(10), MapType::LRUPerCPUHash);
    assert_eq!(MapType::from(11), MapType::LPMTrie);
    assert_eq!(MapType::MAX_CODE, 11);
}

#[test]
fn map_type_names() {
    assert_eq!(MapType::Unspec.name(), "Unspec");
    assert_eq!(MapType::Hash.name(), "Hash");
    assert_eq!(MapType::LRUPerCPUHash.name(), "LRUPerCPUHash");
    assert_eq!(MapType::LPMTrie.name(), "LPMTrie");
    for code in 0..=11u8 {
        let kind = MapType::from(code);
        assert_eq!(kind.name(), format!("{:?}", kind));
    }
}

#[test]
fn default_map_is_unset() {
    let m = MapInfo::default();
    assert_eq!(
        m,
        MapInfo {
            fd: 0,
            map_type: MapType::Unspec,
            key_size: 0,
            value_size: 0,
            max_entries: 0,
            map_flags: 0,
        }
    );
}

#[test]
fn fdinfo_is_read() {
    let info = "pos:\t0\nflags:\t02000002\nmnt_id:\t13\nmap_type:\t1\nkey_size:\t8\nvalue_size:\t12\nmax_entries:\t65536\nmap_flags:\t0x1f\nmemlock:\t1576960\n";
    assert_eq!(
        MapInfo::from_fdinfo(5, info),
        Ok(MapInfo {
            fd: 5,
            map_type: MapType::Hash,
            key_size: 8,
            value_size: 12,
            max_entries: 65536,
            map_flags: 0x1f,
        })
    );
}

#[test]
fn fdinfo_without_known_names_leaves_the_map_unset() {
    let unset = MapInfo {
        fd: 3,
        map_type: MapType::Unspec,
        key_size: 0,
        value_size: 0,
        max_entries: 0,
        map_flags: 0,
    };
    assert_eq!(MapInfo::from_fdinfo(3, ""), Ok(unset));
    assert_eq!(MapInfo::from_fdinfo(3, "pos:\t0"), Ok(unset));
    assert_eq!(MapInfo::from_fdinfo(3, "pos:\t0\n"), Ok(unset));
    assert_eq!(MapInfo::from_fdinfo(3, "flags:\t02\r\nmnt_id:\t1\r\n"), Ok(unset));
}

#[test]
fn fdinfo_line_endings() {
    let m = MapInfo::from_fdinfo(1, "key_size:\t8\r\nvalue_size:\t4").unwrap();
    assert_eq!((m.key_size, m.value_size), (8, 4));
    // A carriage return ends a line only together with a line feed.
    assert_eq!(
        MapInfo::from_fdinfo(1, "key_size:\t8\r"),
        Err(MetadataError::MalformedValue)
    );
    // An empty line is no name and value.
    assert_eq!(
        MapInfo::from_fdinfo(1, "key_size:\t8\n\nvalue_size:\t4\n"),
        Err(MetadataError::MalformedLine)
    );
}

#[test]
fn fdinfo_later_lines_override_earlier_ones() {
    let m = MapInfo::from_fdinfo(1, "key_size:\t8\nkey_size:\t16\nmap_type:\t+9\n").unwrap();
    assert_eq!(m.key_size, 16);
    assert_eq!(m.map_type, MapType::LRUHash);
}

#[test]
fn fdinfo_malformed_lines_are_refused() {
    assert_eq!(MapInfo::from_fdinfo(1, "key_size: 8\n"), Err(MetadataError::MalformedLine));
    assert_eq!(MapInfo::from_fdinfo(1, "key_size:\t8\t9\n"), Err(MetadataError::MalformedLine));
    assert_eq!(MapInfo::from_fdinfo(1, "other\n"), Err(MetadataError::MalformedLine));
    assert_eq!(MapInfo::from_fdinfo(1, "a\tb\tc"), Err(MetadataError::MalformedLine));
}

#[test]
fn fdinfo_malformed_values_are_refused() {
    assert_eq!(MapInfo::from_fdinfo(1, "map_type:\t12\n"), Err(MetadataError::MalformedValue));
    assert_eq!(MapInfo::from_fdinfo(1, "map_type:\t256\n"), Err(MetadataError::MalformedValue));
    assert_eq!(MapInfo::from_fdinfo(1, "map_type:\tx\n"), Err(MetadataError::MalformedValue));
    assert_eq!(MapInfo::from_fdinfo(1, "key_size:\t\n"), Err(MetadataError::MalformedValue));
    assert_eq!(MapInfo::from_fdinfo(1, "key_size:\t-1\n"), Err(MetadataError::MalformedValue));
    assert_eq!(
        MapInfo::from_fdinfo(1, "value_size:\t99999999999999999999999999\n"),
        Err(MetadataError::MalformedValue)
    );
    assert_eq!(MapInfo::from_fdinfo(1, "max_entries:\t1 \n"), Err(MetadataError::MalformedValue));
    assert_eq!(MapInfo::from_fdinfo(1, "map_flags:\t0\n"), Err(MetadataError::MalformedValue));
    assert_eq!(MapInfo::from_fdinfo(1, "map_flags:\t0x\n"), Err(MetadataError::MalformedValue));
    assert_eq!(MapInfo::from_fdinfo(1, "map_flags:\t0xzz\n"), Err(MetadataError::MalformedValue));
}

#[test]
fn fdinfo_flags_skip_the_base_prefix() {
    let m = MapInfo::from_fdinfo(1, "map_flags:\t0xA0\n").unwrap();
    assert_eq!(m.map_flags, 0xa0);
    let m = MapInfo::from_fdinfo(1, "map_flags:\t0x+1\n").unwrap();
    assert_eq!(m.map_flags, 1);
}

#[test]
fn fdinfo_values_at_the_limits() {
    let text = format!("key_size:\t{}\nmap_type:\t11\n", usize::MAX);
    let m = MapInfo::from_fdinfo(-1, &text).unwrap();
    assert_eq!(m.key_size, usize::MAX);
    assert_eq!(m.map_type, MapType::LPMTrie);
    assert_eq!(m.fd, -1);
    let text = format!("map_flags:\t0x{:x}\n", usize::MAX);
    assert_eq!(MapInfo::from_fdinfo(0, &text).unwrap().map_flags, usize::MAX);
}

#[test]
fn map_is_described() {
    let m = MapInfo {
        fd: 4,
        map_type: MapType::Hash,
        key_size: 8,
        value_size: 8,
        max_entries: 1024,
        map_flags: 0,
    };
    assert_eq!(
        m.describe(),
        "Type:          Hash\nKey size:      8\nValue size:    8\nMax entries:   1024"
    );
}
