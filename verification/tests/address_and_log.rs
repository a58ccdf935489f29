use webcam_viewer::ip::{listen_address, Ip, IpError};
use webcam_viewer::log::log_line;
use webcam_viewer::login::LoginData;
use webcam_viewer::secret::make_secret;
use webcam_viewer::settings::StreamerSettings;

#[test]
fn parses_dotted_address() {
    assert_eq!(Ip::parse("192.168.0.7"), Ok(Ip { addr: [192, 168, 0, 7] }));
    assert_eq!(Ip::parse("0.0.0.0"), Ok(Ip { addr: [0, 0, 0, 0] }));
    assert_eq!(Ip::parse("255.255.255.255"), Ok(Ip { addr: [255; 4] }));
}

#[test]
fn extra_pieces_are_not_used() {
    assert_eq!(Ip::parse("1.2.3.4.5"), Ok(Ip { addr: [1, 2, 3, 4] }));
}

#[test]
fn plus_signs_and_leading_zeros_are_read() {
    assert_eq!(Ip::parse("+1.002.+030.4"), Ok(Ip { addr: [1, 2, 30, 4] }));
}

#[test]
fn too_few_values() {
    assert_eq!(Ip::parse("1.2.3"), Err(IpError::TooFewValues));
    assert_eq!(Ip::parse("7"), Err(IpError::TooFewValues));
}

#[test]
fn not_integers() {
    assert_eq!(Ip::parse(""), Err(IpError::NotAnInteger));
    assert_eq!(Ip::parse("1.2.x.4"), Err(IpError::NotAnInteger));
    assert_eq!(Ip::parse("256.1.1.1"), Err(IpError::NotAnInteger));
    assert_eq!(Ip::parse("1..2.3"), Err(IpError::NotAnInteger));
    assert_eq!(Ip::parse("-1.2.3.4"), Err(IpError::NotAnInteger));
    assert_eq!(Ip::parse("+.2.3.4"), Err(IpError::NotAnInteger));
    assert_eq!(Ip::parse("1.2.3.4 "), Err(IpError::NotAnInteger));
    assert_eq!(Ip::parse("1.2.3.é"), Err(IpError::NotAnInteger));
    // an invalid piece wins over a missing one
    assert_eq!(Ip::parse("1.x"), Err(IpError::NotAnInteger));
    assert_eq!(Ip::parse("1.2.3.4.99999"), Err(IpError::NotAnInteger));
}

#[test]
fn agrees_with_std_parse() {
    for text in ["10.20.30.40", "1.2.3.4.5", "+1.2.3.4", "1.2.3", "a.b.c.d", "300.1.1.1", ""] {
        let pieces: Result<Vec<u8>, _> = text.split('.').map(|s| s.parse::<u8>()).collect();
        let expected = match pieces {
            Err(_) => Err(IpError::NotAnInteger),
            Ok(v) if v.len() < 4 => Err(IpError::TooFewValues),
            Ok(v) => Ok(Ip { addr: [v[0], v[1], v[2], v[3]] }),
        };
        assert_eq!(Ip::parse(text), expected, "{text}");
    }
}

#[test]
fn listen_address_text() {
    assert_eq!(listen_address(Some(Ip { addr: [10, 0, 0, 2] }), 8080), "10.0.0.2:8080");
    assert_eq!(listen_address(None, 3333), "127.0.0.1:3333");
    assert_eq!(listen_address(Some(Ip { addr: [0, 0, 0, 0] }), 0), "0.0.0.0:0");
    assert_eq!(
        listen_address(Some(Ip { addr: [255, 99, 100, 9] }), usize::MAX),
        format!("255.99.100.9:{}", usize::MAX)
    );
}

#[test]
fn listen_address_reads_back() {
    let ip = Ip { addr: [172, 16, 254, 1] };
    let text = listen_address(Some(ip), 1);
    let host = text.split(':').next().unwrap();
    assert_eq!(Ip::parse(host), Ok(ip));
}

#[test]
fn log_line_at_epoch() {
    assert_eq!(log_line(0, "hi"), "00:00:00:.000 | hi");
}

#[test]
fn log_line_time_of_day() {
    let nanos: i64 = 3_723_456_789_000 + 86_400 * 1_000_000_000 * 3;
    assert_eq!(log_line(nanos, "decoding"), "01:02:03:.456 | decoding");
}

#[test]
fn log_line_before_epoch() {
    assert_eq!(log_line(-1, "x"), "23:59:59:.999 | x");
}

#[test]
fn log_line_empty_message() {
    assert_eq!(log_line(59_999_000_000, ""), "00:00:59:.999 | ");
}

#[test]
fn login_form_starts_empty() {
    let login = LoginData::new();
    assert_eq!(login.address, "localhost:3333");
    assert_eq!(login.secret, "");
    assert_eq!(login.secret_bytes(), vec![0u8; 40]);
}

#[test]
fn login_secret_matches_streamer() {
    let login = LoginData { address: "cam:1".to_string(), secret: "pass".to_string() };
    assert_eq!(login.secret_bytes(), make_secret("pass".to_string()));
}

#[test]
fn settings_defaults() {
    let s = StreamerSettings::resolve(None, None, None, None);
    assert_eq!(s.dev_id, 0);
    assert_eq!(s.port, 3333);
    assert_eq!(s.address, "127.0.0.1:3333");
    assert_eq!(s.secret_bytes, make_secret("TEST".to_string()));
    assert!(s.default_secret);
}

#[test]
fn settings_given() {
    let s = StreamerSettings::resolve(
        Some(2),
        Some(Ip { addr: [0, 0, 0, 0] }),
        Some(9000),
        Some("open sesame".to_string()),
    );
    assert_eq!(s.dev_id, 2);
    assert_eq!(s.port, 9000);
    assert_eq!(s.address, "0.0.0.0:9000");
    assert_eq!(s.secret_bytes, make_secret("open sesame".to_string()));
    assert!(!s.default_secret);
}
