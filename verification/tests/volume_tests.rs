use minvoice::volume::{check_volume, Preferences, DEFAULT_VOLUME};

fn gain(percent: u16) -> Result<f64, String> {
    check_volume(percent).map(|p| f64::from(p) / 100.0)
}

#[test]
fn validates_gain_and_keeps_other_people_and_servers_unchanged() {
    let mut prefs = Preferences::new();
    prefs.set("wss://a", "alice", 0).unwrap();
    prefs.set("wss://a", "bob", 200).unwrap();
    assert_eq!(prefs.get("wss://a", "alice"), 0);
    assert_eq!(prefs.get("wss://a", "bob"), 200);
    assert_eq!(prefs.get("wss://b", "alice"), 100);
    assert_eq!(prefs.get("wss://a", "unknown"), 100);
    assert!(prefs.set("wss://a", "alice", 201).is_err());
    assert_eq!(prefs.get("wss://a", "alice"), 0);
    assert_eq!(gain(0).unwrap(), 0.0);
    assert_eq!(gain(100).unwrap(), 1.0);
    assert_eq!(gain(200).unwrap(), 2.0);
}

fn entries_from_json(text: &str) -> Vec<(String, Vec<(String, u16)>)> {
    let value: serde_json::Value = serde_json::from_str(text).unwrap();
    let mut entries = Vec::new();
    for (server, users) in value["servers"].as_object().unwrap() {
        let mut list = Vec::new();
        for (identity, volume) in users.as_object().unwrap() {
            list.push((identity.clone(), volume.as_u64().unwrap() as u16));
        }
        entries.push((server.clone(), list));
    }
    entries
}

#[test]
fn invalid_saved_volume_falls_back_to_normal() {
    let prefs =
        Preferences::from_entries(entries_from_json(r#"{"servers":{"server":{"alice":65535,"bob":50}}}"#));
    assert_eq!(prefs.get("server", "alice"), 100);
    assert_eq!(prefs.get("server", "bob"), 50);
}

#[test]
fn overwriting_keeps_one_entry() {
    let mut prefs = Preferences::new();
    prefs.set("wss://example.test", "alice", 65).unwrap();
    prefs.set("wss://example.test", "alice", 100).unwrap();
    prefs.set("wss://example.test", "bob", 7).unwrap();
    let entries = prefs.to_entries();
    assert_eq!(entries.len(), 1);
    assert_eq!(entries[0].1.len(), 2);
    let back = Preferences::from_entries(entries);
    assert_eq!(back.get("wss://example.test", "alice"), 100);
    assert_eq!(back.get("wss://example.test", "bob"), 7);
}

#[test]
fn volume_range_message() {
    assert_eq!(check_volume(201).unwrap_err(), "音量必须在 0–200% 之间");
    assert_eq!(check_volume(DEFAULT_VOLUME).unwrap(), 100);
}

#[test]
fn later_entries_replace_earlier_ones() {
    let prefs = Preferences::from_entries(vec![
        ("s".to_string(), vec![("a".to_string(), 10), ("a".to_string(), 20)]),
        ("s".to_string(), vec![("b".to_string(), 30)]),
    ]);
    assert_eq!(prefs.get("s", "a"), 100);
    assert_eq!(prefs.get("s", "b"), 30);
}

#[test]
fn default_preferences_are_empty() {
    let prefs = Preferences::default();
    assert_eq!(prefs.get("wss://a", "alice"), DEFAULT_VOLUME);
    assert!(prefs.to_entries().is_empty());
}
