use base64::engine::general_purpose::URL_SAFE_NO_PAD;
use base64::Engine;
use minvoice::token::{
    b64, mint, mint_at, mint_token, parse_ttl, seconds_or_zero, sign_hs256, unix_now, MintInput,
    MintRequest,
};

/// RFC 7515 Appendix A.1: base64url without padding and HMAC-SHA256, byte for byte.
#[test]
fn rfc7515_hs256_known_answer() {
    let header = "{\"typ\":\"JWT\",\r\n \"alg\":\"HS256\"}";
    let payload =
        "{\"iss\":\"joe\",\r\n \"exp\":1300819380,\r\n \"http://example.com/is_root\":true}";

    let header_b64 = b64(header.as_bytes());
    let payload_b64 = b64(payload.as_bytes());

    assert_eq!(header_b64, "eyJ0eXAiOiJKV1QiLA0KICJhbGciOiJIUzI1NiJ9");
    assert_eq!(
        payload_b64,
        "eyJpc3MiOiJqb2UiLA0KICJleHAiOjEzMDA4MTkzODAsDQogImh0dHA6Ly9leGFtcGxlLmNvbS9pc19yb290Ijp0cnVlfQ"
    );

    let key = URL_SAFE_NO_PAD
        .decode(
            "AyM1SysPpbyDfgZld3umj1qzKObwVMkoqQ-EstJQLr_T-1qS0gZH75aKtMN3Yj0iPS4hcgUuTwjAzZr1Z9CAow",
        )
        .expect("the test key is valid base64url");

    let signing_input = format!("{header_b64}.{payload_b64}");
    assert_eq!(
        sign_hs256(&signing_input, &key),
        "dBjftJeZ4CVP-mB92K27uhbUJU1p1r_wW1gFWFOEjXk"
    );
}

#[test]
fn mint_is_deterministic_for_fixed_clock() {
    let req = MintRequest {
        api_key: "APItestkey".into(),
        api_secret: "testsecret".into(),
        identity: "alice".into(),
        display_name: Some("Alice".into()),
        room: "voice-1".into(),
        ttl_seconds: 3600,
    };
    let token = mint_at(&req, 1_700_000_000).unwrap();
    let parts: Vec<&str> = token.split('.').collect();
    assert_eq!(parts.len(), 3, "a JWT has three segments");

    let header: serde_json::Value =
        serde_json::from_slice(&URL_SAFE_NO_PAD.decode(parts[0]).unwrap()).unwrap();
    assert_eq!(header["alg"], "HS256");

    let payload: serde_json::Value =
        serde_json::from_slice(&URL_SAFE_NO_PAD.decode(parts[1]).unwrap()).unwrap();
    assert_eq!(payload["iss"], "APItestkey");
    assert_eq!(payload["sub"], "alice");
    assert_eq!(payload["name"], "Alice");
    assert_eq!(payload["exp"], 1_700_003_600u64);
    assert_eq!(payload["nbf"], 1_699_999_990u64);
    assert_eq!(payload["video"]["room"], "voice-1");
    assert_eq!(payload["video"]["roomJoin"], true);
    assert_eq!(payload["video"]["roomAdmin"], false);
}

#[test]
fn signature_verifies_against_secret() {
    let req = MintRequest {
        api_key: "k".into(),
        api_secret: "s3cr3t".into(),
        identity: "bob".into(),
        display_name: None,
        room: "r".into(),
        ttl_seconds: 60,
    };
    let token = mint_at(&req, 42).unwrap();
    let (signing_input, sig) = token.rsplit_once('.').unwrap();
    assert_eq!(sig, sign_hs256(signing_input, b"s3cr3t"));
    assert_ne!(sig, sign_hs256(signing_input, b"wrong"));
}

#[test]
fn empty_credentials_are_rejected() {
    let mut req = MintRequest {
        api_key: "k".into(),
        api_secret: "".into(),
        identity: "bob".into(),
        display_name: None,
        room: "r".into(),
        ttl_seconds: 60,
    };
    assert!(mint_at(&req, 0).is_err());
    req.api_secret = "s".into();
    req.room = "  ".into();
    assert!(mint_at(&req, 0).is_err());
}

#[test]
fn ttl_parsing() {
    assert_eq!(parse_ttl("6h").unwrap(), 21600);
    assert_eq!(parse_ttl("30m").unwrap(), 1800);
    assert_eq!(parse_ttl("7d").unwrap(), 604800);
    assert_eq!(parse_ttl("90").unwrap(), 90);
    assert_eq!(parse_ttl("").unwrap(), 21600);
    assert!(parse_ttl("6x").is_err());
    assert!(parse_ttl("abc").is_err());
    assert!(parse_ttl("小时").is_err());
    assert!(parse_ttl("18446744073709551615d").is_err());
}

fn request(display_name: Option<&str>) -> MintRequest {
    MintRequest {
        api_key: "APItestkey".into(),
        api_secret: "testsecret".into(),
        identity: "alice".into(),
        display_name: display_name.map(|s| s.to_string()),
        room: "voice-1".into(),
        ttl_seconds: 3600,
    }
}

fn payload_of(token: &str) -> serde_json::Value {
    let parts: Vec<&str> = token.split('.').collect();
    serde_json::from_slice(&URL_SAFE_NO_PAD.decode(parts[1]).unwrap()).unwrap()
}

#[test]
fn claims_are_written_in_sorted_order_as_compact_json() {
    let token = mint_at(&request(Some("  Alice ")), 1_700_000_000).unwrap();
    let parts: Vec<&str> = token.split('.').collect();
    let body = String::from_utf8(URL_SAFE_NO_PAD.decode(parts[1]).unwrap()).unwrap();
    assert_eq!(
        body,
        "{\"exp\":1700003600,\"iss\":\"APItestkey\",\"jti\":\"alice\",\"kind\":\"standard\",\"name\":\"Alice\",\"nbf\":1699999990,\"sub\":\"alice\",\"video\":{\"canPublish\":true,\"canPublishData\":true,\"canSubscribe\":true,\"room\":\"voice-1\",\"roomAdmin\":false,\"roomJoin\":true}}"
    );
    let header = String::from_utf8(URL_SAFE_NO_PAD.decode(parts[0]).unwrap()).unwrap();
    assert_eq!(header, "{\"alg\":\"HS256\",\"typ\":\"JWT\"}");
}

#[test]
fn claims_are_what_serde_json_writes_for_the_same_values() {
    let req = request(Some("李\"四\n"));
    let token = mint_at(&req, 1_700_000_000).unwrap();
    let parts: Vec<&str> = token.split('.').collect();
    let body = String::from_utf8(URL_SAFE_NO_PAD.decode(parts[1]).unwrap()).unwrap();
    let mut expected = serde_json::Map::new();
    expected.insert("exp".into(), serde_json::Value::from(1_700_003_600u64));
    expected.insert("iss".into(), serde_json::Value::from("APItestkey"));
    expected.insert("nbf".into(), serde_json::Value::from(1_699_999_990u64));
    expected.insert("sub".into(), serde_json::Value::from("alice"));
    expected.insert("jti".into(), serde_json::Value::from("alice"));
    let mut video = serde_json::Map::new();
    video.insert("room".into(), serde_json::Value::from("voice-1"));
    video.insert("roomJoin".into(), serde_json::Value::from(true));
    video.insert("canPublish".into(), serde_json::Value::from(true));
    video.insert("canSubscribe".into(), serde_json::Value::from(true));
    video.insert("canPublishData".into(), serde_json::Value::from(true));
    video.insert("roomAdmin".into(), serde_json::Value::from(false));
    expected.insert("video".into(), serde_json::Value::Object(video));
    expected.insert("kind".into(), serde_json::Value::from("standard"));
    expected.insert("name".into(), serde_json::Value::from("李\"四"));
    assert_eq!(body, serde_json::Value::Object(expected).to_string());
}

#[test]
fn blank_display_name_is_left_out() {
    let token = mint_at(&request(Some("   ")), 100).unwrap();
    assert!(payload_of(&token).get("name").is_none());
    let token = mint_at(&request(None), 100).unwrap();
    assert!(payload_of(&token).get("name").is_none());
}

#[test]
fn not_before_saturates_at_zero() {
    let token = mint_at(&request(None), 5).unwrap();
    assert_eq!(payload_of(&token)["nbf"], 0u64);
    assert_eq!(payload_of(&token)["exp"], 3605u64);
}

#[test]
fn each_missing_credential_has_its_message() {
    let mut req = request(None);
    req.api_key = " ".into();
    assert_eq!(mint_at(&req, 0).unwrap_err(), "API Key 不能为空");
    let mut req = request(None);
    req.api_secret = "\t".into();
    assert_eq!(mint_at(&req, 0).unwrap_err(), "API Secret 不能为空");
    let mut req = request(None);
    req.identity = "\u{3000}".into();
    assert_eq!(mint_at(&req, 0).unwrap_err(), "参与者 ID 不能为空");
    let mut req = request(None);
    req.room = "".into();
    assert_eq!(mint_at(&req, 0).unwrap_err(), "房间名不能为空");
}

#[test]
fn ttl_errors_and_bounds() {
    assert_eq!(parse_ttl("  5 ").unwrap(), 30);
    assert_eq!(parse_ttl("+90").unwrap(), 90);
    assert_eq!(parse_ttl("10s").unwrap(), 30);
    assert_eq!(parse_ttl("2 H").unwrap(), 7200);
    assert_eq!(parse_ttl("1D").unwrap(), 86400);
    assert_eq!(
        parse_ttl("6x").unwrap_err(),
        "不支持的时间单位 \"x\":只认 s/m/h/d"
    );
    assert_eq!(
        parse_ttl("abc").unwrap_err(),
        "无法解析有效期 \"abc\":用 30m / 6h / 7d 这种写法"
    );
    assert_eq!(parse_ttl("18446744073709551615d").unwrap_err(), "有效期过大");
    assert_eq!(parse_ttl("18446744073709551615").unwrap(), u64::MAX);
    assert!(parse_ttl("-5m").is_err());
}

#[test]
fn into_request_carries_the_form_over() {
    let input = MintInput {
        api_key: "k".into(),
        api_secret: "s".into(),
        identity: "id".into(),
        display_name: Some("n".into()),
        room: "r".into(),
        ttl: "30m".into(),
    };
    let req = input.into_request().unwrap();
    assert_eq!(req.ttl_seconds, 1800);
    assert_eq!(req.api_key, "k");
    assert_eq!(req.room, "r");
    let bad = MintInput {
        api_key: "k".into(),
        api_secret: "s".into(),
        identity: "id".into(),
        display_name: None,
        room: "r".into(),
        ttl: "x1".into(),
    };
    assert!(bad.into_request().is_err());
}

#[test]
fn minting_now_signs_and_reports_expiry() {
    let input = MintInput {
        api_key: "k".into(),
        api_secret: "s".into(),
        identity: "id".into(),
        display_name: None,
        room: "r".into(),
        ttl: "1h".into(),
    };
    let result = mint_token(input).unwrap();
    assert_eq!(result.ttl_seconds, 3600);
    assert_eq!(result.room, "r");
    let payload = payload_of(&result.token);
    assert_eq!(payload["exp"].as_u64().unwrap() + 5 >= result.expires_at, true);
    let (signing_input, sig) = result.token.rsplit_once('.').unwrap();
    assert_eq!(sig, sign_hs256(signing_input, b"s"));
    assert!(mint(&request(None)).is_ok());
}

#[test]
fn huge_validity_cannot_be_minted_now() {
    let mut req = request(None);
    req.ttl_seconds = u64::MAX;
    assert_eq!(mint(&req).unwrap_err(), "有效期过大");
}

#[test]
fn minting_now_reports_each_form_problem() {
    let mut input = MintInput {
        api_key: "k".into(),
        api_secret: " ".into(),
        identity: "id".into(),
        display_name: None,
        room: "r".into(),
        ttl: "1h".into(),
    };
    assert_eq!(mint_token(input.clone()).unwrap_err(), "API Secret 不能为空");
    input.ttl = "1w".into();
    assert_eq!(
        mint_token(input.clone()).unwrap_err(),
        "不支持的时间单位 \"w\":只认 s/m/h/d"
    );
    input.api_secret = "s".into();
    input.ttl = "".into();
    let result = mint_token(input).unwrap();
    assert_eq!(result.ttl_seconds, 6 * 3600);
    assert!(result.expires_at >= 6 * 3600);
}

#[test]
fn zero_validity_is_minted_now() {
    let mut req = request(None);
    req.ttl_seconds = 0;
    let token = mint(&req).unwrap();
    let payload = payload_of(&token);
    assert_eq!(payload["exp"], payload["nbf"].as_u64().unwrap() + 10);
}

#[test]
fn clock_reading_is_seconds_or_zero() {
    assert_eq!(seconds_or_zero(Some(1_700_000_000)), 1_700_000_000);
    assert_eq!(seconds_or_zero(Some(0)), 0);
    assert_eq!(seconds_or_zero(None), 0);
    assert!(unix_now() > 1_600_000_000);
}

#[test]
fn names_are_escaped_as_serde_json_escapes_them() {
    let name = "a\\b\u{1}\u{1f}\t\r\u{8}\u{c}\u{7f}é";
    let req = request(Some(name));
    let token = mint_at(&req, 1_000).unwrap();
    let parts: Vec<&str> = token.split('.').collect();
    let body = String::from_utf8(URL_SAFE_NO_PAD.decode(parts[1]).unwrap()).unwrap();
    let quoted = serde_json::to_string(name).unwrap();
    assert!(body.contains(&format!("\"name\":{quoted},")));
    assert!(body.contains("\\u0001\\u001f\\t\\r\\b\\f"));
    assert_eq!(payload_of(&token)["name"], name);
}
