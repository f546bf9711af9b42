use wonderwall::packet::{decode_packet, Packet, PacketError};
use wonderwall::server::{build_packet, build_response, Command};

#[test]
fn round_trip_keeps_every_part() {
    let p = Packet::new()
        .method("200")
        .header("WallpaperControl", "SETWP")
        .header("Content-Type", "text/plain")
        .body("line one\nline two\r\n\r\nstill body");
    let q = decode_packet(p.as_bytes()).unwrap();
    assert_eq!(q.method, "HTTP/1.1 200");
    assert_eq!(
        q.headers,
        vec![
            ("WallpaperControl".to_string(), "SETWP".to_string()),
            ("Content-Type".to_string(), "text/plain".to_string())
        ]
    );
    assert_eq!(q.body, "line one\nline two\r\n\r\nstill body");
}

#[test]
fn encoding_is_the_wire_format() {
    let p = Packet::new().header("WallpaperControl", "PING");
    assert_eq!(p.as_bytes(), b"POST /\r\nWallpaperControl: PING\r\n\r\n".to_vec());
    assert_eq!(p.to_text(), "POST /\r\nWallpaperControl: PING\r\n\r\n");
}

#[test]
fn builders_trim_and_replace() {
    let p = Packet::new().method("  200 ").header(" Key ", " one ").header("Key", "two");
    assert_eq!(p.method, "HTTP/1.1 200");
    assert_eq!(p.headers, vec![("Key".to_string(), "two".to_string())]);
    assert_eq!(p.get_header("Key"), Some("two".to_string()));
    assert_eq!(p.get_header("Other"), None);
}

#[test]
fn missing_blank_line_is_bad_format() {
    assert!(matches!(decode_packet(Vec::new()), Err(PacketError::BadFormat)));
    assert!(matches!(decode_packet(b"200\r\n".to_vec()), Err(PacketError::BadFormat)));
    assert!(matches!(
        decode_packet(b"POST /\r\nA: b\r\n\r".to_vec()),
        Err(PacketError::BadFormat)
    ));
}

#[test]
fn header_without_separator_is_rejected() {
    assert!(matches!(
        decode_packet(b"POST /\r\nNoColon\r\n\r\nbody".to_vec()),
        Err(PacketError::BadHeader)
    ));
    assert!(matches!(
        decode_packet(b"POST /\r\nA:b\r\n\r\n".to_vec()),
        Err(PacketError::BadHeader)
    ));
}

#[test]
fn invalid_utf8_is_not_text() {
    assert!(matches!(
        decode_packet(vec![0xff, 0xfe, 13, 10, 13, 10]),
        Err(PacketError::NotText)
    ));
}

#[test]
fn status_only_packet_decodes() {
    let p = decode_packet(b"300\r\n\r\nInternal server error".to_vec()).unwrap();
    assert_eq!(p.method, "300");
    assert!(p.headers.is_empty());
    assert_eq!(p.body, "Internal server error");
}

#[test]
fn later_header_replaces_earlier() {
    let p = decode_packet(b"POST /\r\nA: 1\r\nB: 2\r\nA: 3\r\n\r\n".to_vec()).unwrap();
    assert_eq!(
        p.headers,
        vec![("A".to_string(), "3".to_string()), ("B".to_string(), "2".to_string())]
    );
}

#[test]
fn value_may_hold_separator() {
    let p = decode_packet(b"x\r\nK: a: b\r\n\r\n".to_vec()).unwrap();
    assert_eq!(p.get_header("K"), Some("a: b".to_string()));
}

#[test]
fn response_text_has_decimal_status() {
    assert_eq!(
        build_response(200, Some("pong".to_string())),
        "HTTP/1.1 200\r\nContent-Type: text/plain\r\nContent-Length: 4\r\n\r\npong"
    );
    assert_eq!(
        build_response(0, None),
        "HTTP/1.1 0\r\nContent-Type: text/plain\r\nContent-Length: 0\r\n\r\n"
    );
    assert_eq!(
        build_response(18446744073709551615, Some("\u{e9}t\u{e9}".to_string())),
        "HTTP/1.1 18446744073709551615\r\nContent-Type: text/plain\r\nContent-Length: 5\r\n\r\n\u{e9}t\u{e9}"
    );
    assert_eq!(
        build_packet(true, Some("ok".to_string())),
        "HTTP/1.1 200 OK\r\nContent-Type: text/plain\r\nContent-Length: 2\r\n\r\nok"
    );
    assert_eq!(
        build_packet(false, None),
        "HTTP/1.1 400 Bad Request\r\nContent-Type: text/plain\r\nContent-Length: 0\r\n\r\n"
    );
}

#[test]
fn decimal_digits() {
    assert_eq!(wonderwall::server::decimal_string(0), "0");
    assert_eq!(wonderwall::server::decimal_string(9), "9");
    assert_eq!(wonderwall::server::decimal_string(10), "10");
    assert_eq!(wonderwall::server::decimal_string(4096), "4096");
}

#[test]
fn verbs_are_case_insensitive() {
    assert_eq!(Command::from_verb("ping"), Some(Command::Ping));
    assert_eq!(Command::from_verb("SetDir"), Some(Command::SetDir));
    assert_eq!(Command::from_verb("getwp"), Some(Command::GetWp));
    assert_eq!(Command::from_verb("update"), None);
    assert_eq!(Command::parse("ping"), None);
    assert_eq!(Command::parse("KILL"), Some(Command::Kill));
}

#[test]
fn lone_carriage_returns_survive_round_trip() {
    let p = Packet {
        method: "a\r".to_string(),
        headers: vec![
            ("K\r".to_string(), "v\r".to_string()),
            ("\nL".to_string(), "x\ny".to_string()),
        ],
        body: "\r\n\r\nbody".to_string(),
    };
    let q = decode_packet(p.as_bytes()).unwrap();
    assert_eq!(q.method, p.method);
    assert_eq!(q.headers, p.headers);
    assert_eq!(q.body, p.body);
}

#[test]
fn trimming_uses_unicode_white_space() {
    let p = Packet::new().header("\u{3000}Key\u{a0}", "\t\u{2009}v a l\u{85}\n");
    assert_eq!(p.headers, vec![("Key".to_string(), "v a l".to_string())]);
}

#[test]
fn trim_str_strips_both_ends() {
    assert_eq!(wonderwall::packet::trim_str("  a b \u{2028}"), "a b");
    assert_eq!(wonderwall::packet::trim_str("\u{3000}\t"), "");
    assert_eq!(wonderwall::packet::trim_str("x"), "x");
}
