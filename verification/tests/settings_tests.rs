use minvoice::settings::{
    merge_prefill, normalize_url, parse_env_file, prefill_from_env, prepare_for_save,
    identity_for_hash, random_identity, Settings,
};

#[test]
fn normalizes_server_addresses_with_custom_ports() {
    assert_eq!(
        normalize_url(" host.example:7443/ "),
        "wss://host.example:7443"
    );
    assert_eq!(
        normalize_url("http://127.0.0.1:7880/"),
        "ws://127.0.0.1:7880"
    );
    assert_eq!(normalize_url("https://host.example"), "wss://host.example");
    assert_eq!(normalize_url("ws://localhost:7880"), "ws://localhost:7880");
    assert!(normalize_url(" ").is_empty());
}

#[test]
fn parses_credentials_env() {
    let text = "\
# comment line
LIVEKIT_URL=wss://livekit.example.com
LIVEKIT_API_KEY=APIfake00000000
LIVEKIT_API_SECRET=abcdef0123456789

LIVEKIT_WS_URL=wss://ignored-because-url-already-set
";
    let s = parse_env_file(text);
    assert_eq!(s.url, "wss://livekit.example.com");
    assert_eq!(s.api_key, "APIfake00000000");
    assert_eq!(s.api_secret, "abcdef0123456789");
    assert_eq!(s.room, "voice-1");

    let fallback = parse_env_file("LIVEKIT_WS_URL=wss://ws-only.example\n");
    assert_eq!(fallback.url, "wss://ws-only.example");
}

#[test]
fn random_identity_is_prefixed_and_unique_enough() {
    let a = random_identity();
    let b = random_identity();
    assert!(a.starts_with("minvoice-"));
    assert_ne!(a, b);
}

#[test]
fn generated_identity_has_eight_lowercase_hex_digits() {
    let a = random_identity();
    let digits = &a["minvoice-".len()..];
    assert_eq!(digits.len(), 8);
    assert!(digits.chars().all(|c| c.is_ascii_digit() || ('a'..='f').contains(&c)));
}

#[test]
fn defaults_are_a_fresh_form() {
    let s = Settings::default();
    assert_eq!(s.url, "");
    assert_eq!(s.api_secret, "");
    assert_eq!(s.room, "voice-1");
    assert_eq!(s.ttl, "6h");
    assert!(s.echo_cancellation && s.noise_suppression && s.auto_gain_control);
    assert!(!s.auto_join);
    assert!(s.identity.starts_with("minvoice-"));
}

#[test]
fn env_values_are_trimmed_and_unquoted() {
    let s = parse_env_file("  LIVEKIT_API_KEY = \"k1\"  \r\nnot a pair\n#LIVEKIT_API_SECRET=x\nLIVEKIT_API_SECRET=\"\"s\"\"\nOTHER=1");
    assert_eq!(s.api_key, "k1");
    assert_eq!(s.api_secret, "s");
    assert_eq!(s.url, "");
    let s = parse_env_file("LIVEKIT_URL=\nLIVEKIT_WS_URL=wss://b\nLIVEKIT_URL=wss://a=b");
    assert_eq!(s.url, "wss://a=b");
}

#[test]
fn prefill_needs_key_and_secret() {
    assert!(prefill_from_env("LIVEKIT_API_KEY=k\n").is_none());
    let s = prefill_from_env("LIVEKIT_API_KEY=k\nLIVEKIT_API_SECRET=s").unwrap();
    assert_eq!(s.api_key, "k");
    let mut loaded = Settings::default();
    loaded.echo_cancellation = false;
    let id = loaded.identity.clone();
    let merged = merge_prefill(loaded, s);
    assert_eq!(merged.identity, id);
    assert!(!merged.echo_cancellation);
    assert_eq!(merged.api_secret, "s");
}

#[test]
fn other_address_forms() {
    assert_eq!(normalize_url("wss://x///"), "wss://x");
    assert_eq!(normalize_url("/x"), "wss:///x");
    assert_eq!(normalize_url("HTTPS://x"), "wss://HTTPS://x");
    assert_eq!(normalize_url("///"), "");
}

fn complete() -> Settings {
    let mut s = Settings::default();
    s.url = "host:7443/".into();
    s.api_key = "k".into();
    s.api_secret = "s".into();
    s
}

#[test]
fn saving_checks_the_form() {
    let saved = prepare_for_save(complete()).unwrap();
    assert_eq!(saved.url, "wss://host:7443");
    let mut s = complete();
    s.ttl = "6x".into();
    assert_eq!(prepare_for_save(s).unwrap_err(), "不支持的时间单位 \"x\":只认 s/m/h/d");
    let mut s = complete();
    s.url = " / ".into();
    assert_eq!(
        prepare_for_save(s).unwrap_err(),
        "服务器地址、API Key 和 API Secret 不能为空"
    );
    let mut s = complete();
    s.api_secret = " ".into();
    assert_eq!(
        prepare_for_save(s).unwrap_err(),
        "服务器地址、API Key 和 API Secret 不能为空"
    );
    let mut s = complete();
    s.room = "".into();
    assert_eq!(prepare_for_save(s).unwrap_err(), "参与者 ID 和房间名不能为空");
}

#[test]
fn identity_takes_the_low_32_bits_of_the_hash() {
    assert_eq!(identity_for_hash(0x1_0000_00ab), "minvoice-000000ab");
    assert_eq!(identity_for_hash(u64::MAX), "minvoice-ffffffff");
    assert_eq!(identity_for_hash(0), "minvoice-00000000");
    assert_eq!(identity_for_hash(0xdead_beef_1234_5678), "minvoice-12345678");
}

#[test]
fn normalizing_again_changes_nothing() {
    for raw in ["host:7443/", "http://h", "https://h/", "ws://x", " wss://y// ", "a b"] {
        let once = normalize_url(raw);
        assert_eq!(normalize_url(&once), once);
    }
}
