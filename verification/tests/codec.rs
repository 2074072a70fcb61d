use cilium_lb::service::{
    decode_backend, decode_frontend, encode_backend, encode_frontend, CodecError, Endpoint,
    KEY_SIZE, VALUE_SIZE,
};

#[test]
fn frontend_key_has_the_wire_layout() {
    let bytes = encode_frontend(0x0a00_0001, 80, 0).unwrap();
    assert_eq!(bytes, vec![10, 0, 0, 1, 0, 80, 0, 0]);
    assert_eq!(bytes.len(), KEY_SIZE);
    let bytes = encode_frontend(0xc0a8_0164, 8080, 0x0102).unwrap();
    assert_eq!(bytes, vec![192, 168, 1, 100, 0x1f, 0x90, 0x02, 0x01]);
}

#[test]
fn backend_value_has_the_wire_layout() {
    let bytes = encode_backend(0x0a00_0002, 8080, 1).unwrap();
    assert_eq!(bytes, vec![10, 0, 0, 2, 0x1f, 0x90, 1, 0]);
    assert_eq!(bytes.len(), VALUE_SIZE);
    let bytes = encode_backend(0, 0, 513).unwrap();
    assert_eq!(bytes, vec![0, 0, 0, 0, 0, 0, 1, 2]);
}

#[test]
fn frontend_round_trips() {
    let cases: [(u32, u32, u32); 6] = [
        (0, 0, 0),
        (u32::MAX, 65535, 65535),
        (0x0a00_0001, 80, 1),
        (0x7f00_0001, 443, 300),
        (0x0102_0304, 0x0506, 0x0708),
        (1, 65535, 0),
    ];
    for (a, p, s) in cases {
        let bytes = encode_frontend(a, p, s).unwrap();
        assert_eq!(decode_frontend(&bytes), Ok((a, p, s)));
    }
}

#[test]
fn backend_round_trips() {
    let cases: [(u32, u32, u32); 5] = [
        (0, 0, 0),
        (u32::MAX, 65535, 65535),
        (0x0a00_0002, 8080, 1),
        (0x0102_0304, 0x0506, 0x0708),
        (0, 0, 2),
    ];
    for (a, p, w) in cases {
        let bytes = encode_backend(a, p, w).unwrap();
        assert_eq!(decode_backend(&bytes), Ok((a, p, w)));
    }
}

#[test]
fn bytes_round_trip_through_the_fields() {
    let bytes: Vec<u8> = vec![9, 8, 7, 6, 5, 4, 3, 2];
    let (a, p, s) = decode_frontend(&bytes).unwrap();
    assert_eq!((a, p, s), (0x0908_0706, 0x0504, 0x0203));
    assert_eq!(encode_frontend(a, p, s).unwrap(), bytes);
    let (a, p, w) = decode_backend(&bytes).unwrap();
    assert_eq!(encode_backend(a, p, w).unwrap(), bytes);
}

#[test]
fn out_of_range_fields_are_refused() {
    assert_eq!(encode_frontend(1, 65536, 0), Err(CodecError::PortOutOfRange));
    assert_eq!(encode_frontend(1, 80, 65536), Err(CodecError::SlaveOutOfRange));
    assert_eq!(encode_frontend(1, 70000, 70000), Err(CodecError::PortOutOfRange));
    assert_eq!(encode_backend(1, 65536, 1), Err(CodecError::PortOutOfRange));
    assert_eq!(encode_backend(1, 80, 65536), Err(CodecError::WeightOutOfRange));
    assert_eq!(encode_backend(1, u32::MAX, u32::MAX), Err(CodecError::PortOutOfRange));
}

#[test]
fn wrong_lengths_are_refused() {
    assert_eq!(decode_frontend(&[]), Err(CodecError::WrongLength));
    assert_eq!(decode_frontend(&[1, 2, 3, 4, 5, 6, 7]), Err(CodecError::WrongLength));
    assert_eq!(decode_frontend(&[1, 2, 3, 4, 5, 6, 7, 8, 9]), Err(CodecError::WrongLength));
    assert_eq!(decode_backend(&[]), Err(CodecError::WrongLength));
    assert_eq!(decode_backend(&[0; 12]), Err(CodecError::WrongLength));
}

#[test]
fn endpoint_is_read_from_text() {
    assert_eq!(Endpoint::parse("10.0.0.1:80"), Some(Endpoint { address: 0x0a00_0001, port: 80 }));
    assert_eq!(
        Endpoint::parse("255.255.255.255:65535"),
        Some(Endpoint { address: u32::MAX, port: 65535 })
    );
    assert_eq!(Endpoint::parse("0.0.0.0:0"), Some(Endpoint { address: 0, port: 0 }));
    assert_eq!(Endpoint::parse("1.2.3.4:0080"), Some(Endpoint { address: 0x0102_0304, port: 80 }));
}

#[test]
fn malformed_endpoints_are_refused() {
    for text in [
        "",
        "10.0.0.1",
        "10.0.0.1:",
        "10.0.0.1:65536",
        "10.0.0:80",
        "10.0.0.0.1:80",
        "256.0.0.1:80",
        "01.0.0.1:80",
        "1000.0.0.1:80",
        "10.0.0.1:80 ",
        " 10.0.0.1:80",
        "10.0.0.1:8o",
        "10..0.1:80",
        "a.b.c.d:80",
        "10.0.0.1:-1",
        "10.0.0.1:+1",
        "10.0.0.1;80",
        "[::1]:80",
        "10.0.0.1:80:80",
        "\u{ff11}.2.3.4:80",
    ] {
        assert_eq!(Endpoint::parse(text), None, "{}", text);
    }
}

#[test]
fn endpoint_is_written_as_text() {
    assert_eq!(Endpoint { address: 0x0a00_0001, port: 80 }.to_text(), "10.0.0.1:80");
    assert_eq!(Endpoint { address: 0, port: 0 }.to_text(), "0.0.0.0:0");
    assert_eq!(Endpoint { address: u32::MAX, port: 65535 }.to_text(), "255.255.255.255:65535");
    assert_eq!(Endpoint { address: 0xc0a8_0164, port: 8080 }.to_text(), "192.168.1.100:8080");
}

#[test]
fn endpoint_text_round_trips() {
    for e in [
        Endpoint { address: 0, port: 0 },
        Endpoint { address: 0x0a00_0001, port: 80 },
        Endpoint { address: 0x6401_0a09, port: 10 },
        Endpoint { address: u32::MAX, port: 65535 },
    ] {
        assert_eq!(Endpoint::parse(&e.to_text()), Some(e));
    }
}

#[test]
fn push_text_appends() {
    let mut out = String::from("to ");
    Endpoint { address: 0x0a00_0002, port: 8080 }.push_text(&mut out);
    assert_eq!(out, "to 10.0.0.2:8080");
}
