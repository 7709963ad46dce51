use std::collections::HashSet;

use xray::Error;
use xray::Header;
use xray::Seconds;
use xray::SegmentId;
use xray::TraceId;

#[test]
fn client_prefixes_packets_with_header() {
    let mut m = serde_json::Map::new();
    m.insert(
        "foo".to_string(),
        serde_json::Value::String("bar".to_string()),
    );
    let body = serde_json::to_vec(&serde_json::Value::Object(m)).unwrap();
    assert_eq!(
        xray::packet(&body),
        b"{\"format\": \"json\", \"version\": 1}\n{\"foo\":\"bar\"}".to_vec()
    );
}

#[test]
fn header_bytes_are_the_documented_literal() {
    assert_eq!(
        Header::bytes(),
        b"{\"format\": \"json\", \"version\": 1}\n".to_vec()
    );
}

#[test]
fn packet_of_empty_payload_is_just_the_header() {
    assert_eq!(xray::packet(&[]), Header::bytes());
}

#[test]
fn hex_encode_examples() {
    assert_eq!(xray::hexbytes::encode(&[]), "");
    assert_eq!(xray::hexbytes::encode(&[0x00, 0x0f, 0xff]), "000fff");
    assert_eq!(xray::hexbytes::encode(&[0x53, 0x99, 0x5c]), "53995c");
}

#[test]
fn hex_decode_examples() {
    assert_eq!(xray::hexbytes::decode("000fff").unwrap(), vec![0x00, 0x0f, 0xff]);
    assert_eq!(xray::hexbytes::decode("").unwrap(), Vec::<u8>::new());
    assert_eq!(xray::hexbytes::decode("AB").unwrap(), vec![0xab]);
}

#[test]
fn hex_decode_rejects_odd_length_and_bad_digits() {
    assert_eq!(xray::hexbytes::decode("abc").unwrap_err(), Error::InvalidFormat);
    assert_eq!(xray::hexbytes::decode("zz").unwrap_err(), Error::InvalidFormat);
    assert_eq!(xray::hexbytes::decode("a ").unwrap_err(), Error::InvalidFormat);
}

#[test]
fn hex_round_trips_all_byte_values() {
    let mut all: Vec<u8> = Vec::new();
    for b in 0..=255u8 {
        all.push(b);
    }
    let text = xray::hexbytes::encode(&all);
    assert_eq!(text.len(), 512);
    assert_eq!(xray::hexbytes::decode(&text).unwrap(), all);
}

#[test]
fn segment_id_parses_and_renders_canonically() {
    let id = SegmentId::parse("53995c3f42cd8ad8").unwrap();
    assert_eq!(id.bytes, [0x53, 0x99, 0x5c, 0x3f, 0x42, 0xcd, 0x8a, 0xd8]);
    assert_eq!(id.to_string(), "53995c3f42cd8ad8");
    assert_eq!(id.to_string().len(), 16);
}

#[test]
fn segment_id_parse_is_case_insensitive() {
    let lower = SegmentId::parse("53995c3f42cd8ad8").unwrap();
    let upper = SegmentId::parse("53995C3F42CD8AD8").unwrap();
    assert_eq!(lower, upper);
    assert_eq!(upper.to_string(), "53995c3f42cd8ad8");
}

#[test]
fn segment_id_rejects_malformed_text() {
    assert_eq!(SegmentId::parse("").unwrap_err(), Error::InvalidFormat);
    assert_eq!(SegmentId::parse("53995c3f42cd8ad").unwrap_err(), Error::InvalidFormat);
    assert_eq!(SegmentId::parse("53995c3f42cd8ad80").unwrap_err(), Error::InvalidFormat);
    assert_eq!(SegmentId::parse("53995c3f42cd8adz").unwrap_err(), Error::InvalidFormat);
    assert_eq!(SegmentId::parse(" 3995c3f42cd8ad8").unwrap_err(), Error::InvalidFormat);
}

#[test]
fn segment_id_from_bytes_renders_exactly() {
    let id = SegmentId::from_bytes([0x53, 0x99, 0x5c, 0x3f, 0x42, 0xcd, 0x8a, 0xd8]);
    assert_eq!(id.to_string(), "53995c3f42cd8ad8");
}

#[test]
fn typical_packets_fit_one_datagram() {
    let body = vec![0x7bu8; 1000];
    let p = xray::packet(&body);
    assert_eq!(p.len(), 33 + 1000);
    assert!(p.len() < 65507);
}

#[test]
fn segment_id_generation_round_trips() {
    let id = SegmentId::generate();
    let text = id.to_string();
    assert_eq!(text.len(), 16);
    assert_eq!(SegmentId::parse(&text).unwrap(), id);
}

#[test]
fn segment_id_generation_avoids_collisions() {
    let mut seen: HashSet<String> = HashSet::new();
    for _ in 0..10_000 {
        assert!(seen.insert(SegmentId::generate().to_string()));
    }
}

#[test]
fn trace_id_parses_and_renders_canonically() {
    let t = TraceId::parse("1-5f1a2b3c-ab12cd34ef56ab12cd34ef56").unwrap();
    assert_eq!(t.epoch, [0x5f, 0x1a, 0x2b, 0x3c]);
    assert_eq!(
        t.unique,
        [0xab, 0x12, 0xcd, 0x34, 0xef, 0x56, 0xab, 0x12, 0xcd, 0x34, 0xef, 0x56]
    );
    assert_eq!(t.to_string(), "1-5f1a2b3c-ab12cd34ef56ab12cd34ef56");
}

#[test]
fn trace_id_from_bytes_renders_exactly() {
    let t = TraceId::from_bytes(
        [0x5f, 0x1a, 0x2b, 0x3c],
        [0xab, 0x12, 0xcd, 0x34, 0xef, 0x56, 0xab, 0x12, 0xcd, 0x34, 0xef, 0x56],
    );
    assert_eq!(t.to_string(), "1-5f1a2b3c-ab12cd34ef56ab12cd34ef56");
}

#[test]
fn trace_id_parse_is_case_insensitive() {
    let t = TraceId::parse("1-5F1A2B3C-AB12CD34EF56AB12CD34EF56").unwrap();
    assert_eq!(t.to_string(), "1-5f1a2b3c-ab12cd34ef56ab12cd34ef56");
}

#[test]
fn trace_id_rejects_malformed_text() {
    let bad = [
        "",
        "1-5f1a2b3c",
        "1-5f1a2b3c-ab12cd34ef56ab12cd34ef56-0",
        "2-5f1a2b3c-ab12cd34ef56ab12cd34ef56",
        "1-5f1a2b-ab12cd34ef56ab12cd34ef56",
        "1-5f1a2b3c00-a12cd34ef56ab12cd34ef56",
        "1-5f1a2b3c-ab12cd34ef56ab12cd34ef5",
        "1-5f1a2b3c-ab12cd34ef56ab12cd34ef567",
        "1-5f1a2bzc-ab12cd34ef56ab12cd34ef56",
        "1-5f1a2b3c-ab12cd34ef56ab12cd34ef5g",
        " 1-5f1a2b3c-ab12cd34ef56ab12cd34ef5",
        "1-5f1a2b3c-ab12cd34ef56ab12cd34ef56 ",
        "1--5f1a2b3cab12cd34ef56ab12cd34ef56",
    ];
    for text in bad {
        assert_eq!(TraceId::parse(text).unwrap_err(), Error::InvalidFormat);
    }
}

#[test]
fn trace_id_generation_matches_the_grammar() {
    let t = TraceId::generate();
    let text = t.to_string();
    let bytes = text.as_bytes();
    assert_eq!(bytes.len(), 35);
    assert_eq!(bytes[0], b'1');
    assert_eq!(bytes[1], b'-');
    assert_eq!(bytes[10], b'-');
    for i in 2..10 {
        assert!(bytes[i].is_ascii_hexdigit());
    }
    for i in 11..35 {
        assert!(bytes[i].is_ascii_hexdigit());
    }
    assert_eq!(TraceId::parse(&text).unwrap(), t);
}

#[test]
fn trace_id_generation_avoids_collisions() {
    let mut seen: HashSet<String> = HashSet::new();
    for _ in 0..10_000 {
        assert!(seen.insert(TraceId::generate().to_string()));
    }
}

#[test]
fn trace_id_embeds_the_creation_second() {
    let before = Seconds::now().as_millis() / 1000;
    let t = TraceId::generate();
    let after = Seconds::now().as_millis() / 1000;
    let secs = t.creation_second() as i64;
    assert!(before <= secs && secs <= after);
}

#[test]
fn trace_id_creation_second_round_trips() {
    let t = TraceId::from_creation_second(0x5f1a2b3c, [0; 12]);
    assert_eq!(t.epoch, [0x5f, 0x1a, 0x2b, 0x3c]);
    assert_eq!(t.creation_second(), 0x5f1a2b3c);
    assert_eq!(t.to_string(), "1-5f1a2b3c-000000000000000000000000");
}

#[test]
fn seconds_round_trips_millis() {
    assert_eq!(Seconds::from_millis(1500).as_millis(), 1500);
    assert_eq!(Seconds::from_millis(-1).as_millis(), -1);
    assert_eq!(Seconds::from_millis(0).as_millis(), 0);
}

#[test]
fn seconds_from_seconds_scales_to_millis() {
    assert_eq!(Seconds::from_seconds(2).as_millis(), 2000);
    assert_eq!(Seconds::from_seconds(-3).as_millis(), -3000);
    assert_eq!(Seconds::from_seconds(0), Seconds::from_millis(0));
}

#[test]
fn seconds_text_examples() {
    assert_eq!(Seconds::from_millis(1500).to_text(), "1.500");
    assert_eq!(Seconds::from_millis(0).to_text(), "0.000");
    assert_eq!(Seconds::from_millis(-500).to_text(), "-0.500");
    assert_eq!(Seconds::from_millis(1736951347123).to_text(), "1736951347.123");
    assert_eq!(Seconds::from_millis(i64::MAX).to_text(), "9223372036854775.807");
    assert_eq!(Seconds::from_millis(i64::MIN).to_text(), "-9223372036854775.808");
}

#[test]
fn seconds_text_round_trips() {
    for ms in [
        0i64,
        1,
        -1,
        999,
        1000,
        -999,
        1500,
        1736951347123,
        i64::MAX,
        i64::MIN,
    ] {
        let s = Seconds::from_millis(ms);
        assert_eq!(Seconds::parse_text(&s.to_text()).unwrap(), s);
    }
}

#[test]
fn seconds_parse_rejects_malformed_text() {
    let bad = [
        "",
        "1",
        "1.5",
        "1.5000",
        "1,500",
        ".000",
        "-.000",
        "abc.000",
        "01.000",
        "1.00a",
        " 1.000",
        "1.000 ",
        "9223372036854775.808",
        "-9223372036854775.809",
        "99999999999999999.000",
    ];
    for text in bad {
        assert_eq!(Seconds::parse_text(text).unwrap_err(), Error::InvalidFormat);
    }
}

#[test]
fn seconds_parse_accepts_extreme_magnitudes() {
    assert_eq!(
        Seconds::parse_text("-9223372036854775.808").unwrap(),
        Seconds::from_millis(i64::MIN)
    );
    assert_eq!(
        Seconds::parse_text("9223372036854775.807").unwrap(),
        Seconds::from_millis(i64::MAX)
    );
}

#[test]
fn seconds_text_reads_as_a_json_number() {
    let x: f64 = serde_json::from_str(&Seconds::from_millis(1500).to_text()).unwrap();
    assert_eq!(x, 1.5);
    let y: f64 = serde_json::from_str(&Seconds::from_millis(-250).to_text()).unwrap();
    assert_eq!(y, -0.25);
}

#[test]
fn seconds_now_is_after_the_epoch() {
    let now = Seconds::now();
    assert!(now.as_millis() > 0);
}
