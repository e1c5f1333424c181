use memclock_watch::alert::{alert_request, alert_text, request_from_parts, write_mhz};
use memclock_watch::control::{react, rest, MonitorConfig, Phase, Reaction};
use memclock_watch::reading::{parse_reading, probe_reading, ClockReading};

fn mhz(khz: i64) -> String {
    let mut s = String::new();
    write_mhz(&mut s, khz);
    s
}

#[test]
fn standard_config_values() {
    let c = MonitorConfig::standard();
    assert_eq!(c.target_khz, 16_901_000);
    assert_eq!(c.idle_secs, 3600);
    assert_eq!(c.recheck_secs, 15);
}

#[test]
fn sample_at_target_idles() {
    let c = MonitorConfig::standard();
    let s = probe_reading(true, b"16901.0\n");
    assert_eq!(s, Some(ClockReading { khz: 16_901_000 }));
    let r = react(&c, s);
    assert_eq!(r, Reaction { alert: None, remediate: false, sleep_secs: 0, next: Phase::Idle });
    let idle = rest(&c);
    assert_eq!(idle.sleep_secs, 3600);
    assert_eq!(idle.alert, None);
    assert!(!idle.remediate);
    assert_eq!(idle.next, Phase::Sampling);
}

#[test]
fn sample_above_target_idles() {
    let c = MonitorConfig::standard();
    let r = react(&c, parse_reading(b"17000"));
    assert_eq!(r.alert, None);
    assert!(!r.remediate);
    assert_eq!(r.next, Phase::Idle);
}

#[test]
fn low_sample_escalates_once() {
    let c = MonitorConfig::standard();
    let s = probe_reading(true, b"16500.3\r\n");
    assert_eq!(s, Some(ClockReading { khz: 16_500_300 }));
    let r = react(&c, s);
    assert_eq!(r.alert, Some(ClockReading { khz: 16_500_300 }));
    assert!(r.remediate);
    assert_eq!(r.sleep_secs, 15);
    assert_eq!(r.next, Phase::Sampling);
    let text = alert_text(r.alert.unwrap(), c.target_khz);
    assert!(text.contains("16500.3"));
    assert!(text.contains("16901"));
    assert_eq!(
        text,
        "\u{26a0}\u{fe0f} ALERTA NVIDIA OVERCLOCK\n\nClock detectado: 16500.3 MHz\nAlvo esperado: 16901 MHz\n\nPerfil reaplicado automaticamente."
    );
}

#[test]
fn just_below_target_escalates() {
    let c = MonitorConfig::standard();
    let s = parse_reading(b"16900.9999");
    assert_eq!(s, Some(ClockReading { khz: 16_900_999 }));
    assert!(react(&c, s).remediate);
}

#[test]
fn failed_probe_is_no_data() {
    let c = MonitorConfig::standard();
    let s = probe_reading(false, b"16500");
    assert_eq!(s, None);
    let r = react(&c, s);
    assert_eq!(r, Reaction { alert: None, remediate: false, sleep_secs: 0, next: Phase::Idle });
}

#[test]
fn unparseable_output_is_no_data() {
    let c = MonitorConfig::standard();
    let s = probe_reading(true, b"N/A\n");
    assert_eq!(s, None);
    assert_eq!(react(&c, s).alert, None);
    assert!(!react(&c, s).remediate);
}

#[test]
fn parse_accepts_decimal_forms() {
    assert_eq!(parse_reading(b"  +5.  "), Some(ClockReading { khz: 5000 }));
    assert_eq!(parse_reading(b".5"), Some(ClockReading { khz: 500 }));
    assert_eq!(parse_reading(b"\t10501\r\n"), Some(ClockReading { khz: 10_501_000 }));
    assert_eq!(parse_reading(b"-2.5"), Some(ClockReading { khz: -2500 }));
    assert_eq!(parse_reading(b"-0.0001"), Some(ClockReading { khz: -1 }));
    assert_eq!(parse_reading(b"0.12345"), Some(ClockReading { khz: 123 }));
}

#[test]
fn parse_rejects_other_text() {
    assert_eq!(parse_reading(b""), None);
    assert_eq!(parse_reading(b"   "), None);
    assert_eq!(parse_reading(b"."), None);
    assert_eq!(parse_reading(b"-"), None);
    assert_eq!(parse_reading(b"1.2.3"), None);
    assert_eq!(parse_reading(b"12 34"), None);
    assert_eq!(parse_reading(b"1e"), None);
    assert_eq!(parse_reading(b"e5"), None);
    assert_eq!(parse_reading(b"1e5.0"), None);
    assert_eq!(parse_reading(b"nan"), None);
    assert_eq!(parse_reading(b"infin"), None);
    assert_eq!(parse_reading(b"[N/A]"), None);
}

#[test]
fn parse_saturates_huge_values() {
    assert_eq!(parse_reading(b"99999999999999999999"), Some(ClockReading { khz: i64::MAX }));
    assert_eq!(parse_reading(b"-99999999999999999999.5"), Some(ClockReading { khz: i64::MIN }));
    assert_eq!(parse_reading(b"9223372036854775.807"), Some(ClockReading { khz: i64::MAX }));
    assert_eq!(parse_reading(b"-9223372036854775.808"), Some(ClockReading { khz: i64::MIN }));
    assert_eq!(parse_reading(b"-9223372036854775.807"), Some(ClockReading { khz: -i64::MAX }));
}

#[test]
fn mhz_rendering() {
    assert_eq!(mhz(16_901_000), "16901");
    assert_eq!(mhz(16_500_300), "16500.3");
    assert_eq!(mhz(1_234_560), "1234.56");
    assert_eq!(mhz(1), "0.001");
    assert_eq!(mhz(0), "0");
    assert_eq!(mhz(-1500), "-1.5");
    assert_eq!(mhz(i64::MIN), "-9223372036854775.808");
}

#[test]
fn missing_token_sends_nothing() {
    let c = MonitorConfig::standard();
    let s = ClockReading { khz: 16_500_300 };
    assert!(alert_request(&c, None, Some("42".to_string()), s).is_none());
}

#[test]
fn missing_chat_id_sends_nothing() {
    let c = MonitorConfig::standard();
    let s = ClockReading { khz: 16_500_300 };
    assert!(alert_request(&c, Some("tok".to_string()), None, s).is_none());
    assert!(alert_request(&c, None, None, s).is_none());
}

#[test]
fn request_with_credentials() {
    let c = MonitorConfig::standard();
    let s = ClockReading { khz: 16_500_300 };
    let q = alert_request(&c, Some("tok".to_string()), Some("42".to_string()), s).unwrap();
    assert_eq!(q.url, "https://api.telegram.org/bottok/sendMessage");
    assert_eq!(
        q.body,
        "{\"chat_id\":\"42\",\"parse_mode\":\"HTML\",\"text\":\"\u{26a0}\u{fe0f} ALERTA NVIDIA OVERCLOCK\\n\\nClock detectado: 16500.3 MHz\\nAlvo esperado: 16901 MHz\\n\\nPerfil reaplicado automaticamente.\"}"
    );
}

#[test]
fn request_escapes_recipient() {
    let c = MonitorConfig::standard();
    let s = ClockReading { khz: 1 };
    let q = alert_request(&c, Some("t".to_string()), Some("a\"b".to_string()), s).unwrap();
    assert!(q.body.starts_with("{\"chat_id\":\"a\\\"b\",\"parse_mode\":\"HTML\",\"text\":\""));
}

#[test]
fn request_parts_assembled() {
    let q = request_from_parts("T", "\"7\"", "\"hi\"");
    assert_eq!(q.url, "https://api.telegram.org/botT/sendMessage");
    assert_eq!(q.body, "{\"chat_id\":\"7\",\"parse_mode\":\"HTML\",\"text\":\"hi\"}");
}

#[test]
fn custom_threshold_is_used() {
    let c = MonitorConfig { target_khz: 100_000, idle_secs: 60, recheck_secs: 5 };
    let r = react(&c, Some(ClockReading { khz: 99_999 }));
    assert_eq!(r.sleep_secs, 5);
    assert!(r.remediate);
    assert_eq!(react(&c, Some(ClockReading { khz: 100_000 })).alert, None);
    assert_eq!(rest(&c).sleep_secs, 60);
}

#[test]
fn parse_reads_exponent_forms() {
    assert_eq!(parse_reading(b"1e-3"), Some(ClockReading { khz: 1 }));
    assert_eq!(parse_reading(b"1.65e4"), Some(ClockReading { khz: 16_500_000 }));
    assert_eq!(parse_reading(b"1.6901E4"), Some(ClockReading { khz: 16_901_000 }));
    assert_eq!(parse_reading(b"1e+2"), Some(ClockReading { khz: 100_000 }));
    assert_eq!(parse_reading(b"1.e2"), Some(ClockReading { khz: 100_000 }));
    assert_eq!(parse_reading(b"-2.5e-4"), Some(ClockReading { khz: -1 }));
    assert_eq!(parse_reading(b"0e999999"), Some(ClockReading { khz: 0 }));
    assert_eq!(
        parse_reading(b"123456789012345678901234567890e-20"),
        Some(ClockReading { khz: 1_234_567_890_123 })
    );
}

#[test]
fn parse_saturates_huge_exponents() {
    assert_eq!(
        parse_reading(b"5e99999999999999999999999999999999"),
        Some(ClockReading { khz: i64::MAX })
    );
    assert_eq!(
        parse_reading(b"-5e-99999999999999999999999999999999"),
        Some(ClockReading { khz: -1 })
    );
    assert_eq!(
        parse_reading(b"5e-99999999999999999999999999999999"),
        Some(ClockReading { khz: 0 })
    );
}

#[test]
fn parse_reads_infinity() {
    assert_eq!(parse_reading(b"inf"), Some(ClockReading { khz: i64::MAX }));
    assert_eq!(parse_reading(b"+Infinity"), Some(ClockReading { khz: i64::MAX }));
    assert_eq!(parse_reading(b"-INF"), Some(ClockReading { khz: i64::MIN }));
}

#[test]
fn exponent_sample_below_target_escalates() {
    let c = MonitorConfig::standard();
    let r = react(&c, probe_reading(true, b"1e-3\n"));
    assert_eq!(r.alert, Some(ClockReading { khz: 1 }));
    assert!(r.remediate);
    assert!(react(&c, probe_reading(true, b"-inf")).remediate);
    assert!(!react(&c, probe_reading(true, b"1.6901e4")).remediate);
}

#[test]
fn parse_trims_unicode_white_space() {
    assert_eq!(parse_reading(b"16500\xc2\xa0"), Some(ClockReading { khz: 16_500_000 }));
    assert_eq!(parse_reading(b"\xe3\x80\x80 1.5\xe2\x80\xa8"), Some(ClockReading { khz: 1500 }));
    assert_eq!(parse_reading(b"\xe2\x80\x8a\xc2\x852\xe1\x9a\x80"), Some(ClockReading { khz: 2000 }));
    assert_eq!(parse_reading(b"16500\xc2"), None);
    assert_eq!(parse_reading(b"16500\xe2\x80\x8b"), None);
}

#[test]
fn request_escapes_control_characters() {
    let c = MonitorConfig::standard();
    let s = ClockReading { khz: 1 };
    let q = alert_request(&c, Some("t".to_string()), Some("a\t\u{1}\\\u{1f}\u{7f}é".to_string()), s)
        .unwrap();
    assert!(q
        .body
        .starts_with("{\"chat_id\":\"a\\t\\u0001\\\\\\u001f\u{7f}é\",\"parse_mode\":\"HTML\",\"text\":\""));
}
