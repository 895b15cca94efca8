use base64::engine::general_purpose::STANDARD;
use base64::Engine;
use evolvingstring::reader::read_payload;
use evolvingstring::payload::write_payload;
use evolvingstring::EvolvingString;
use evolvingstring::Timestamp;
use evolvingstring::TokenError;

const PLAIN: &str =
    "{\"initial_string\":\"test\",\"secret\":\"secret\",\"interval_seconds\":60,\"start_time\":1700000000}";

const PLAIN_BASE64: &str = "eyJpbml0aWFsX3N0cmluZyI6InRlc3QiLCJzZWNyZXQiOiJzZWNyZXQiLCJpbnRlcnZhbF9zZWNvbmRzIjo2MCwic3RhcnRfdGltZSI6MTcwMDAwMDAwMH0=";

const HARD_SEED: &str = "a\"b\\c\nd\te\u{1}f\u{1f}g\u{7f}hé世\u{1F600}\r\u{8}\u{c}/";

const HARD: &str = "{\"initial_string\":\"a\\\"b\\\\c\\nd\\te\\u0001f\\u001fg\u{7f}hé世\u{1F600}\\r\\b\\f/\",\"secret\":\"\",\"interval_seconds\":0,\"start_time\":18446744073709551615}";

const HARD_BASE64: &str = "eyJpbml0aWFsX3N0cmluZyI6ImFcImJcXGNcbmRcdGVcdTAwMDFmXHUwMDFmZ39ow6nkuJbwn5iAXHJcYlxmLyIsInNlY3JldCI6IiIsImludGVydmFsX3NlY29uZHMiOjAsInN0YXJ0X3RpbWUiOjE4NDQ2NzQ0MDczNzA5NTUxNjE1fQ==";

fn generator(seed: &str, secret: &str, interval: u64, secs: u64, nanos: u32) -> EvolvingString {
    EvolvingString::with_start_time(
        seed.to_string(),
        secret.to_string(),
        interval,
        Timestamp::new(secs, nanos).unwrap(),
    )
}

fn text_of(payload: &str) -> String {
    STANDARD.encode(payload.as_bytes())
}

#[test]
fn to_base64_encodes_correctly() {
    let es = EvolvingString::new("test".to_string(), "secret".to_string(), 60);
    let b64 = es.to_base64();
    assert!(b64.len() > 0);
}

#[test]
fn from_base64_decodes_correctly() {
    let es_original = EvolvingString::new("test".to_string(), "secret".to_string(), 60);
    let b64 = es_original.to_base64();
    let es_decoded = EvolvingString::from_base64(&b64).unwrap();
    assert_eq!(es_original.initial_string, es_decoded.initial_string);
    assert_eq!(es_original.secret, es_decoded.secret);
    assert_eq!(es_original.interval_seconds, es_decoded.interval_seconds);
}

#[test]
fn serialization_deserialization_is_lossless() {
    let es_original = EvolvingString::new("test".to_string(), "secret".to_string(), 60);
    let b64 = es_original.to_base64();
    let es_decoded = EvolvingString::from_base64(&b64).unwrap();
    let b64_second = es_decoded.to_base64();
    assert_eq!(b64, b64_second);
}

#[test]
fn base64_serialization_roundtrip() {
    let es = EvolvingString::new("test".to_string(), "secret".to_string(), 60);
    let b64 = es.to_base64();
    let decoded_es = EvolvingString::from_base64(&b64).unwrap();
    assert_eq!(es.initial_string, decoded_es.initial_string);
    assert_eq!(es.secret, decoded_es.secret);
    assert_eq!(es.interval_seconds, decoded_es.interval_seconds);
}

#[test]
fn to_base64_is_the_base64_of_the_object() {
    let es = generator("test", "secret", 60, 1_700_000_000, 0);
    assert_eq!(es.to_base64(), PLAIN_BASE64);
    assert_eq!(STANDARD.decode(es.to_base64()).unwrap(), PLAIN.as_bytes());
}

#[test]
fn to_base64_escapes_and_keeps_utf8() {
    let es = generator(HARD_SEED, "", 0, u64::MAX, 0);
    assert_eq!(es.to_base64(), HARD_BASE64);
    assert_eq!(STANDARD.decode(es.to_base64()).unwrap(), HARD.as_bytes());
}

#[test]
fn to_base64_drops_the_fraction_of_the_start_time() {
    let whole = generator("test", "secret", 60, 1_700_000_000, 0);
    let late = generator("test", "secret", 60, 1_700_000_000, 999_999_999);
    assert_eq!(late.to_base64(), whole.to_base64());
    assert_eq!(late.to_base64(), PLAIN_BASE64);
}

#[test]
fn to_base64_uses_the_base64_alphabet() {
    let es = generator(HARD_SEED, "\u{0}\u{ff}\u{3e}\u{3f}~~~???>>>", 9, 123_456_789, 5);
    let text = es.to_base64();
    assert!(text.chars().all(|c| c.is_ascii_alphanumeric() || c == '+' || c == '/' || c == '='));
    assert_eq!(text.len() % 4, 0);
}

#[test]
fn from_base64_reads_every_member() {
    let es = EvolvingString::from_base64(PLAIN_BASE64).unwrap();
    assert_eq!(es.initial_string, "test");
    assert_eq!(es.secret, "secret");
    assert_eq!(es.interval_seconds, 60);
    assert_eq!(es.start_time, Timestamp::from_secs(1_700_000_000));
}

#[test]
fn from_base64_reads_escapes_and_utf8() {
    let es = EvolvingString::from_base64(HARD_BASE64).unwrap();
    assert_eq!(es.initial_string, HARD_SEED);
    assert_eq!(es.secret, "");
    assert_eq!(es.interval_seconds, 0);
    assert_eq!(es.start_time, Timestamp::from_secs(u64::MAX));
}

#[test]
fn from_base64_restores_the_start_time_in_whole_seconds() {
    let es = generator("test", "secret", 60, 1_700_000_000, 123_456_789);
    let back = EvolvingString::from_base64(&es.to_base64()).unwrap();
    assert_eq!(back.initial_string, es.initial_string);
    assert_eq!(back.secret, es.secret);
    assert_eq!(back.interval_seconds, es.interval_seconds);
    assert_eq!(back.start_time.secs(), 1_700_000_000);
    assert_eq!(back.start_time.subsec_nanos(), 0);
}

#[test]
fn round_trip_keeps_the_tokens() {
    let es = generator("test_string", "secret", 60, 1_700_000_000, 0);
    let back = EvolvingString::from_base64(&es.to_base64()).unwrap();
    let now = Timestamp::new(1_700_000_125, 7).unwrap();
    assert_eq!(back.current_at(&now), es.current_at(&now));
    assert_eq!(back.predict(61), es.predict(61));
    assert_eq!(back.evolve(5), es.evolve(5));
}

#[test]
fn writing_again_gives_the_same_text() {
    for (seed, secret, interval, secs, nanos) in [
        ("test", "secret", 60u64, 1_700_000_000u64, 0u32),
        ("test", "secret", 60, 1_700_000_000, 999_999_999),
        (HARD_SEED, HARD_SEED, 0, 0, 1),
        ("", "", u64::MAX, u64::MAX, 999_999_999),
    ] {
        let es = generator(seed, secret, interval, secs, nanos);
        let text = es.to_base64();
        let back = EvolvingString::from_base64(&text).unwrap();
        assert_eq!(back.to_base64(), text);
        let twice = EvolvingString::from_base64(&back.to_base64()).unwrap();
        assert_eq!(twice.start_time, back.start_time);
        assert_eq!(twice.initial_string, seed);
        assert_eq!(twice.secret, secret);
        assert_eq!(twice.interval_seconds, interval);
    }
}

#[test]
fn from_base64_refuses_what_is_not_base64() {
    assert_eq!(
        EvolvingString::from_base64("not-valid-base64!!").err(),
        Some(TokenError::DecodeError)
    );
    assert_eq!(EvolvingString::from_base64("a").err(), Some(TokenError::DecodeError));
    assert_eq!(EvolvingString::from_base64("ab=c").err(), Some(TokenError::DecodeError));
    assert_eq!(EvolvingString::from_base64("abc").err(), Some(TokenError::DecodeError));
    assert_eq!(EvolvingString::from_base64(" YQ==").err(), Some(TokenError::DecodeError));
    let mut broken = PLAIN_BASE64.to_string();
    broken.push('*');
    assert_eq!(EvolvingString::from_base64(&broken).err(), Some(TokenError::DecodeError));
}

#[test]
fn from_base64_refuses_bytes_that_are_no_object() {
    assert_eq!(EvolvingString::from_base64("").err(), Some(TokenError::FormatError));
    assert_eq!(EvolvingString::from_base64("aGVsbG8=").err(), Some(TokenError::FormatError));
    for payload in [
        "",
        " ",
        "{",
        "{}",
        "{ }",
        "null",
        "true",
        "60",
        "\"test\"",
        "[\"test\",\"secret\",60,1700000000]",
        "[{\"initial_string\":\"test\",\"secret\":\"secret\",\"interval_seconds\":60,\"start_time\":1700000000}]",
        "{\"initial_string\":\"test\",\"secret\":\"secret\",\"interval_seconds\":60,\"start_time\":1700000000}}",
        "{\"initial_string\":\"test\",\"secret\":\"secret\",\"interval_seconds\":60,\"start_time\":1700000000}x",
        "{\"initial_string\":\"test\",\"secret\":\"secret\",\"interval_seconds\":60,\"start_time\":1700000000}{}",
        "{\"initial_string\":\"test\",\"secret\":\"secret\",\"interval_seconds\":60,\"start_time\":1700000000",
        "{\"initial_string\":\"test\",\"secret\":\"secret\",\"interval_seconds\":60,\"start_time\":1700000000,}",
        "{,\"initial_string\":\"test\",\"secret\":\"secret\",\"interval_seconds\":60,\"start_time\":1700000000}",
        "{\"initial_string\":\"test\",,\"secret\":\"secret\",\"interval_seconds\":60,\"start_time\":1700000000}",
        "{\"initial_string\":\"test\" \"secret\":\"secret\",\"interval_seconds\":60,\"start_time\":1700000000}",
        "{\"initial_string\"=\"test\",\"secret\":\"secret\",\"interval_seconds\":60,\"start_time\":1700000000}",
        "{\"initial_string\"::\"test\",\"secret\":\"secret\",\"interval_seconds\":60,\"start_time\":1700000000}",
        "{initial_string:\"test\",\"secret\":\"secret\",\"interval_seconds\":60,\"start_time\":1700000000}",
        "{'initial_string':\"test\",\"secret\":\"secret\",\"interval_seconds\":60,\"start_time\":1700000000}",
        "{\"initial_string\":\"test\",\"secret\":\"secret\",\"interval_seconds\":60,\"start_time\":1700000000}\u{b}",
        "\u{a0}{\"initial_string\":\"test\",\"secret\":\"secret\",\"interval_seconds\":60,\"start_time\":1700000000}",
    ] {
        assert_eq!(
            EvolvingString::from_base64(&text_of(payload)).err(),
            Some(TokenError::FormatError),
            "{}",
            payload
        );
    }
}

#[test]
fn from_base64_refuses_fewer_or_more_than_the_four_members() {
    for payload in [
        "{\"initial_string\":\"test\",\"secret\":\"secret\",\"interval_seconds\":60}",
        "{\"initial_string\":\"test\",\"secret\":\"secret\",\"start_time\":1700000000}",
        "{\"initial_string\":\"test\",\"interval_seconds\":60,\"start_time\":1700000000}",
        "{\"secret\":\"secret\",\"interval_seconds\":60,\"start_time\":1700000000}",
        "{\"initial_string\":\"test\"}",
        "{\"initial_string\":\"test\",\"secret\":\"secret\",\"interval_seconds\":60,\"start_time\":1700000000,\"more\":1}",
        "{\"more\":1,\"initial_string\":\"test\",\"secret\":\"secret\",\"interval_seconds\":60,\"start_time\":1700000000}",
        "{\"initial_string\":\"test\",\"secret\":\"secret\",\"interval_seconds\":60,\"start_time\":1700000000,\"more\":null}",
        "{\"initial_string\":\"test\",\"secret\":\"secret\",\"interval_seconds\":60,\"start_time\":1700000000,\"secret\":\"secret\"}",
        "{\"initial_string\":\"test\",\"secret\":\"secret\",\"interval_seconds\":60,\"more\":1700000000}",
        "{\"initial_string\":\"test\",\"secret\":\"secret\",\"interval_seconds\":60,\"Start_time\":1700000000}",
        "{\"initial_string\":\"test\",\"secret\":\"secret\",\"interval_seconds\":60,\"start_time \":1700000000}",
        "{\"initial_string\":\"test\",\"secret\":\"secret\",\"interval_seconds\":60,\"\":1700000000}",
        "{\"initial_string\":\"test\",\"initial_string\":\"test\",\"interval_seconds\":60,\"start_time\":1700000000}",
        "{\"initial_string\":\"test\",\"secret\":\"secret\",\"interval_seconds\":60,\"interval_seconds\":60}",
        "{\"secret\":\"a\",\"secret\":\"a\",\"secret\":\"a\",\"secret\":\"a\"}",
    ] {
        assert_eq!(
            EvolvingString::from_base64(&text_of(payload)).err(),
            Some(TokenError::FormatError),
            "{}",
            payload
        );
    }
}

#[test]
fn from_base64_refuses_members_of_another_type() {
    for payload in [
        "{\"initial_string\":5,\"secret\":\"secret\",\"interval_seconds\":60,\"start_time\":1700000000}",
        "{\"initial_string\":\"test\",\"secret\":null,\"interval_seconds\":60,\"start_time\":1700000000}",
        "{\"initial_string\":\"test\",\"secret\":[\"secret\"],\"interval_seconds\":60,\"start_time\":1700000000}",
        "{\"initial_string\":\"test\",\"secret\":{},\"interval_seconds\":60,\"start_time\":1700000000}",
        "{\"initial_string\":\"test\",\"secret\":true,\"interval_seconds\":60,\"start_time\":1700000000}",
        "{\"initial_string\":\"test\",\"secret\":\"secret\",\"interval_seconds\":\"60\",\"start_time\":1700000000}",
        "{\"initial_string\":\"test\",\"secret\":\"secret\",\"interval_seconds\":60,\"start_time\":\"1700000000\"}",
        "{\"initial_string\":\"test\",\"secret\":\"secret\",\"interval_seconds\":-60,\"start_time\":1700000000}",
        "{\"initial_string\":\"test\",\"secret\":\"secret\",\"interval_seconds\":-0,\"start_time\":1700000000}",
        "{\"initial_string\":\"test\",\"secret\":\"secret\",\"interval_seconds\":+60,\"start_time\":1700000000}",
        "{\"initial_string\":\"test\",\"secret\":\"secret\",\"interval_seconds\":60.5,\"start_time\":1700000000}",
        "{\"initial_string\":\"test\",\"secret\":\"secret\",\"interval_seconds\":60.0,\"start_time\":1700000000}",
        "{\"initial_string\":\"test\",\"secret\":\"secret\",\"interval_seconds\":60,\"start_time\":1.7e9}",
        "{\"initial_string\":\"test\",\"secret\":\"secret\",\"interval_seconds\":60,\"start_time\":17E8}",
        "{\"initial_string\":\"test\",\"secret\":\"secret\",\"interval_seconds\":060,\"start_time\":1700000000}",
        "{\"initial_string\":\"test\",\"secret\":\"secret\",\"interval_seconds\":60,\"start_time\":01700000000}",
        "{\"initial_string\":\"test\",\"secret\":\"secret\",\"interval_seconds\":00,\"start_time\":1700000000}",
        "{\"initial_string\":\"test\",\"secret\":\"secret\",\"interval_seconds\":0x3c,\"start_time\":1700000000}",
        "{\"initial_string\":\"test\",\"secret\":\"secret\",\"interval_seconds\":6 0,\"start_time\":1700000000}",
        "{\"initial_string\":\"test\",\"secret\":\"secret\",\"interval_seconds\":,\"start_time\":1700000000}",
        "{\"initial_string\":\"test\",\"secret\":\"secret\",\"interval_seconds\":60,\"start_time\":}",
        "{\"initial_string\":\"test\",\"secret\":\"secret\",\"interval_seconds\":18446744073709551616,\"start_time\":1}",
        "{\"initial_string\":\"test\",\"secret\":\"secret\",\"interval_seconds\":1,\"start_time\":18446744073709551616}",
        "{\"initial_string\":\"test\",\"secret\":\"secret\",\"interval_seconds\":1,\"start_time\":99999999999999999999999}",
    ] {
        assert_eq!(
            EvolvingString::from_base64(&text_of(payload)).err(),
            Some(TokenError::FormatError),
            "{}",
            payload
        );
    }
}

#[test]
fn from_base64_refuses_broken_strings() {
    for payload in [
        "{\"initial_string\":\"te\nst\",\"secret\":\"secret\",\"interval_seconds\":60,\"start_time\":1700000000}",
        "{\"initial_string\":\"te\tst\",\"secret\":\"secret\",\"interval_seconds\":60,\"start_time\":1700000000}",
        "{\"initial_string\":\"te\u{0}st\",\"secret\":\"secret\",\"interval_seconds\":60,\"start_time\":1700000000}",
        "{\"initial_string\":\"te\u{1f}st\",\"secret\":\"secret\",\"interval_seconds\":60,\"start_time\":1700000000}",
        "{\"initial_string\":\"te\\xst\",\"secret\":\"secret\",\"interval_seconds\":60,\"start_time\":1700000000}",
        "{\"initial_string\":\"te\\Nst\",\"secret\":\"secret\",\"interval_seconds\":60,\"start_time\":1700000000}",
        "{\"initial_string\":\"te\\'st\",\"secret\":\"secret\",\"interval_seconds\":60,\"start_time\":1700000000}",
        "{\"initial_string\":\"te\\u00st\",\"secret\":\"secret\",\"interval_seconds\":60,\"start_time\":1700000000}",
        "{\"initial_string\":\"te\\u00g0st\",\"secret\":\"secret\",\"interval_seconds\":60,\"start_time\":1700000000}",
        "{\"initial_string\":\"te\\U0041st\",\"secret\":\"secret\",\"interval_seconds\":60,\"start_time\":1700000000}",
        "{\"initial_string\":\"te\\u004\",\"secret\":\"secret\",\"interval_seconds\":60,\"start_time\":1700000000}",
        "{\"initial_string\":\"te\\ud83dst\",\"secret\":\"secret\",\"interval_seconds\":60,\"start_time\":1700000000}",
        "{\"initial_string\":\"te\\ud83d\\u0041st\",\"secret\":\"secret\",\"interval_seconds\":60,\"start_time\":1700000000}",
        "{\"initial_string\":\"te\\ud83d\\ud83dst\",\"secret\":\"secret\",\"interval_seconds\":60,\"start_time\":1700000000}",
        "{\"initial_string\":\"te\\ude00st\",\"secret\":\"secret\",\"interval_seconds\":60,\"start_time\":1700000000}",
        "{\"initial_string\":\"te\\ude00\\ud83dst\",\"secret\":\"secret\",\"interval_seconds\":60,\"start_time\":1700000000}",
        "{\"initial_string\":\"te\\ud83d\\nst\",\"secret\":\"secret\",\"interval_seconds\":60,\"start_time\":1700000000}",
        "{\"initial_string\":\"te\\ud83d\",\"secret\":\"secret\",\"interval_seconds\":60,\"start_time\":1700000000}",
        "{\"initial_string\":\"test\\\",\"secret\":\"secret\",\"interval_seconds\":60,\"start_time\":1700000000}",
        "{\"initial_string\":\"test,\"secret\":\"secret\",\"interval_seconds\":60,\"start_time\":1700000000}",
        "{\"initial_string\":\"test\",\"secret\":\"secret,\"interval_seconds\":60,\"start_time\":1700000000}",
        "{\"initial_string\":\"test\",\"secret\":\"secret\",\"interval_seconds\":60,\"start_time\":1700000000,\"",
        "{\"initial_string\":test\",\"secret\":\"secret\",\"interval_seconds\":60,\"start_time\":1700000000}",
    ] {
        assert_eq!(
            EvolvingString::from_base64(&text_of(payload)).err(),
            Some(TokenError::FormatError),
            "{}",
            payload
        );
    }
}

fn assert_reads(payload: &str, seed: &str, secret: &str, interval: u64, secs: u64) {
    let es = match EvolvingString::from_base64(&text_of(payload)) {
        Ok(es) => es,
        Err(error) => panic!("{:?} for {}", error, payload),
    };
    assert_eq!(es.initial_string, seed, "{}", payload);
    assert_eq!(es.secret, secret, "{}", payload);
    assert_eq!(es.interval_seconds, interval, "{}", payload);
    assert_eq!(es.start_time, Timestamp::from_secs(secs), "{}", payload);
    let value: serde_json::Value = serde_json::from_str(payload).unwrap();
    let members = value.as_object().unwrap();
    assert_eq!(members.len(), 4, "{}", payload);
    assert_eq!(members.get("initial_string").and_then(|v| v.as_str()), Some(seed), "{}", payload);
    assert_eq!(members.get("secret").and_then(|v| v.as_str()), Some(secret), "{}", payload);
    assert_eq!(members.get("interval_seconds").and_then(|v| v.as_u64()), Some(interval), "{}", payload);
    assert_eq!(members.get("start_time").and_then(|v| v.as_u64()), Some(secs), "{}", payload);
}

#[test]
fn from_base64_reads_the_members_in_any_order() {
    let members = [
        "\"initial_string\":\"a\"",
        "\"secret\":\"b\"",
        "\"interval_seconds\":1",
        "\"start_time\":0",
    ];
    let mut count = 0;
    for first in 0..4 {
        for second in 0..4 {
            for third in 0..4 {
                for fourth in 0..4 {
                    let order = [first, second, third, fourth];
                    let payload = format!(
                        "{{{},{},{},{}}}",
                        members[first], members[second], members[third], members[fourth]
                    );
                    if (0..4).all(|member| order.contains(&member)) {
                        assert_reads(&payload, "a", "b", 1, 0);
                        count += 1;
                    } else {
                        assert_eq!(
                            EvolvingString::from_base64(&text_of(&payload)).err(),
                            Some(TokenError::FormatError),
                            "{}",
                            payload
                        );
                    }
                }
            }
        }
    }
    assert_eq!(count, 24);
    assert_reads(
        "{\"secret\":\"b\",\"initial_string\":\"a\",\"interval_seconds\":1,\"start_time\":0}",
        "a",
        "b",
        1,
        0,
    );
}

#[test]
fn from_base64_reads_spaces_between_the_tokens() {
    assert_reads(
        " {\"initial_string\":\"test\",\"secret\":\"secret\",\"interval_seconds\":60,\"start_time\":1700000000}",
        "test",
        "secret",
        60,
        1_700_000_000,
    );
    assert_reads(
        "{\"initial_string\":\"test\",\"secret\":\"secret\",\"interval_seconds\":60,\"start_time\":1700000000} ",
        "test",
        "secret",
        60,
        1_700_000_000,
    );
    assert_reads(
        "{ \"initial_string\":\"test\",\"secret\":\"secret\",\"interval_seconds\":60,\"start_time\":1700000000}",
        "test",
        "secret",
        60,
        1_700_000_000,
    );
    assert_reads(
        "{\"initial_string\": \"test\",\"secret\":\"secret\",\"interval_seconds\":60,\"start_time\":1700000000}",
        "test",
        "secret",
        60,
        1_700_000_000,
    );
    assert_reads(
        "\r\n\t {\n\t\"initial_string\" \t:\r\n \"te st\" ,\n\t\"secret\" : \" \" ,\n\t\"interval_seconds\" : 60 ,\n\t\"start_time\" : 1700000000\n}\n\n",
        "te st",
        " ",
        60,
        1_700_000_000,
    );
    assert_reads(
        "{\n  \"initial_string\": \"test\",\n  \"secret\": \"secret\",\n  \"interval_seconds\": 0,\n  \"start_time\": 18446744073709551615\n}",
        "test",
        "secret",
        0,
        u64::MAX,
    );
}

#[test]
fn from_base64_reads_every_escape() {
    assert_reads(
        "{\"initial_string\":\"\\\"\\\\\\/\\b\\f\\n\\r\\t\",\"secret\":\"/\",\"interval_seconds\":60,\"start_time\":1}",
        "\"\\/\u{8}\u{c}\n\r\t",
        "/",
        60,
        1,
    );
    assert_reads(
        "{\"initial_string\":\"\\u0074est\",\"secret\":\"te\\/st\",\"interval_seconds\":60,\"start_time\":1}",
        "test",
        "te/st",
        60,
        1,
    );
    assert_reads(
        "{\"initial_string\":\"te\\u000ast\",\"secret\":\"te\\u001Fst\",\"interval_seconds\":60,\"start_time\":1}",
        "te\nst",
        "te\u{1f}st",
        60,
        1,
    );
    assert_reads(
        "{\"initial_string\":\"\\u0000\\u007f\\u0080\\u07ff\\u0800\\uffff\",\"secret\":\"\\u00E9\\u4e16\\uD7FF\\uE000\",\"interval_seconds\":60,\"start_time\":1}",
        "\u{0}\u{7f}\u{80}\u{7ff}\u{800}\u{ffff}",
        "\u{e9}\u{4e16}\u{d7ff}\u{e000}",
        60,
        1,
    );
    assert_reads(
        "{\"initial_string\":\"\\ud83d\\ude00\",\"secret\":\"\\uD800\\uDC00\\uDBFF\\uDFFF\\ud83D\\uDe00\",\"interval_seconds\":60,\"start_time\":1}",
        "\u{1F600}",
        "\u{10000}\u{10ffff}\u{1F600}",
        60,
        1,
    );
    assert_reads(
        "{\"initial_string\":\"h\u{e9}\\u00e9\u{4e16}\\u4e16\u{1F600}\\ud83d\\ude00\u{7f}\",\"secret\":\"\",\"interval_seconds\":60,\"start_time\":1}",
        "h\u{e9}\u{e9}\u{4e16}\u{4e16}\u{1F600}\u{1F600}\u{7f}",
        "",
        60,
        1,
    );
}

#[test]
fn from_base64_reads_names_with_escapes() {
    assert_reads(
        "{\"initial\\u005fstring\":\"a\",\"\\u0073ecret\":\"b\",\"interval_second\\u0073\":1,\"start\\u005Ftime\":0}",
        "a",
        "b",
        1,
        0,
    );
}

#[test]
fn from_base64_reads_numbers_to_the_last() {
    assert_reads(
        "{\"initial_string\":\"\",\"secret\":\"\",\"interval_seconds\":0,\"start_time\":0}",
        "",
        "",
        0,
        0,
    );
    assert_reads(
        "{\"initial_string\":\"\",\"secret\":\"\",\"interval_seconds\":18446744073709551615,\"start_time\":18446744073709551615}",
        "",
        "",
        u64::MAX,
        u64::MAX,
    );
    assert_reads(
        "{\"initial_string\":\"\",\"secret\":\"\",\"interval_seconds\":10,\"start_time\":1000000000000000000}",
        "",
        "",
        10,
        1_000_000_000_000_000_000,
    );
}

#[test]
fn from_base64_refuses_strings_that_are_not_utf8() {
    let mut payload: Vec<u8> = b"{\"initial_string\":\"te".to_vec();
    payload.push(0xff);
    payload.extend_from_slice(b"st\",\"secret\":\"secret\",\"interval_seconds\":60,\"start_time\":1700000000}");
    assert_eq!(
        EvolvingString::from_base64(&STANDARD.encode(&payload)).err(),
        Some(TokenError::FormatError)
    );
    let mut cut: Vec<u8> = b"{\"initial_string\":\"test\",\"secret\":\"".to_vec();
    cut.extend_from_slice(&[0xe4, 0xb8]);
    cut.extend_from_slice(b"\",\"interval_seconds\":60,\"start_time\":1700000000}");
    assert_eq!(
        EvolvingString::from_base64(&STANDARD.encode(&cut)).err(),
        Some(TokenError::FormatError)
    );
}

#[test]
fn from_base64_accepts_an_interval_of_zero() {
    let es = generator("test", "secret", 0, 5, 0);
    let back = EvolvingString::from_base64(&es.to_base64()).unwrap();
    assert_eq!(back.interval_seconds, 0);
    assert_eq!(back.predict(1), Err(TokenError::InvalidInterval));
}

#[test]
fn write_payload_writes_the_object() {
    assert_eq!(write_payload("test", "secret", 60, 1_700_000_000), PLAIN.as_bytes());
    assert_eq!(write_payload(HARD_SEED, "", 0, u64::MAX), HARD.as_bytes());
    assert_eq!(
        write_payload("", "", 0, 0),
        b"{\"initial_string\":\"\",\"secret\":\"\",\"interval_seconds\":0,\"start_time\":0}".to_vec()
    );
    assert_eq!(
        write_payload("a", "b", 10, 109),
        b"{\"initial_string\":\"a\",\"secret\":\"b\",\"interval_seconds\":10,\"start_time\":109}".to_vec()
    );
}

#[test]
fn write_payload_escapes_every_control_character() {
    let controls: String = (0u8..0x20).map(char::from).collect();
    let written = write_payload(&controls, "", 1, 1);
    let expected = "{\"initial_string\":\"\\u0000\\u0001\\u0002\\u0003\\u0004\\u0005\\u0006\\u0007\\b\\t\\n\\u000b\\f\\r\\u000e\\u000f\\u0010\\u0011\\u0012\\u0013\\u0014\\u0015\\u0016\\u0017\\u0018\\u0019\\u001a\\u001b\\u001c\\u001d\\u001e\\u001f\",\"secret\":\"\",\"interval_seconds\":1,\"start_time\":1}";
    assert_eq!(written, expected.as_bytes());
    assert_eq!(read_payload(&written), Some((controls, String::new(), 1, 1)));
}

#[test]
fn read_payload_reads_what_write_payload_wrote() {
    assert_eq!(
        read_payload(PLAIN.as_bytes()),
        Some(("test".to_string(), "secret".to_string(), 60, 1_700_000_000))
    );
    assert_eq!(
        read_payload(HARD.as_bytes()),
        Some((HARD_SEED.to_string(), String::new(), 0, u64::MAX))
    );
    for (seed, secret, interval, secs) in [
        ("", "", 0u64, 0u64),
        ("\"", "\\", 9, 10),
        ("\\\"", "\"\\\"", 99, 100),
        ("\\u0041", "\\n", 1, u64::MAX),
        ("\u{80}\u{7ff}\u{800}\u{ffff}\u{10000}\u{10ffff}", "}{,:", u64::MAX, 1),
    ] {
        let written = write_payload(seed, secret, interval, secs);
        assert_eq!(
            read_payload(&written),
            Some((seed.to_string(), secret.to_string(), interval, secs))
        );
    }
}

#[test]
fn read_payload_refuses_other_bytes() {
    assert_eq!(read_payload(b""), None);
    assert_eq!(read_payload(b"{"), None);
    assert_eq!(read_payload(&PLAIN.as_bytes()[1..]), None);
    assert_eq!(read_payload(&PLAIN.as_bytes()[..PLAIN.len() - 1]), None);
    for cut in 0..PLAIN.len() {
        assert_eq!(read_payload(&PLAIN.as_bytes()[..cut]), None);
    }
}

#[test]
fn the_object_is_json_with_the_four_members() {
    let es = generator(HARD_SEED, "se\"cret", 61, 1_700_000_001, 17);
    let bytes = STANDARD.decode(es.to_base64()).unwrap();
    let value: serde_json::Value = serde_json::from_slice(&bytes).unwrap();
    let members = value.as_object().unwrap();
    assert_eq!(members.len(), 4);
    assert_eq!(members.get("initial_string").and_then(|v| v.as_str()), Some(HARD_SEED));
    assert_eq!(members.get("secret").and_then(|v| v.as_str()), Some("se\"cret"));
    assert_eq!(members.get("interval_seconds").and_then(|v| v.as_u64()), Some(61));
    assert_eq!(members.get("start_time").and_then(|v| v.as_u64()), Some(1_700_000_001));
}

#[test]
fn strings_are_escaped_as_compact_json_escapes_them() {
    let every: String = (0u32..0x300).filter_map(char::from_u32).collect();
    for seed in [every.as_str(), HARD_SEED, "", "plain"] {
        let expected = format!(
            "{{\"initial_string\":{},\"secret\":{},\"interval_seconds\":{},\"start_time\":{}}}",
            serde_json::to_string(seed).unwrap(),
            serde_json::to_string("k").unwrap(),
            serde_json::to_string(&7u64).unwrap(),
            serde_json::to_string(&u64::MAX).unwrap(),
        );
        assert_eq!(write_payload(seed, "k", 7, u64::MAX), expected.as_bytes());
        assert_eq!(
            read_payload(expected.as_bytes()),
            Some((seed.to_string(), "k".to_string(), 7, u64::MAX))
        );
    }
}
