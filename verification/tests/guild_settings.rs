use botcore::guild_data::GuildData;

#[test]
fn set_then_get_roundtrip() {
    let mut gd = GuildData::new();
    gd.set(10, "prefix", "!");
    gd.set(10, "lang", "de");
    gd.set(11, "prefix", "?");
    assert_eq!(gd.get(10, "prefix"), Some("!".to_string()));
    assert_eq!(gd.get(10, "lang"), Some("de".to_string()));
    assert_eq!(gd.get(11, "prefix"), Some("?".to_string()));
    assert_eq!(gd.get(11, "lang"), None);
    assert_eq!(gd.get(12, "prefix"), None);
}

#[test]
fn set_overwrites_existing_value() {
    let mut gd = GuildData::new();
    gd.set(1, "prefix", "!");
    gd.set(1, "prefix", "$");
    assert_eq!(gd.get(1, "prefix"), Some("$".to_string()));
}

#[test]
fn remove_key_keeps_the_guild() {
    let mut gd = GuildData::new();
    gd.set(1, "a", "1");
    gd.set(1, "b", "2");
    gd.remove(1, "a");
    assert_eq!(gd.get(1, "a"), None);
    assert_eq!(gd.get(1, "b"), Some("2".to_string()));
    // Removing the last key still leaves the guild's (empty) table.
    gd.remove(1, "b");
    assert!(gd.get_all(1).is_some());
    // Removing for an unknown guild is a no-op.
    gd.remove(99, "a");
    assert!(gd.get_all(99).is_none());
}

#[test]
fn clear_drops_the_guild_table() {
    let mut gd = GuildData::new();
    gd.set(1, "a", "1");
    gd.set(2, "a", "2");
    gd.clear(1);
    assert!(gd.get_all(1).is_none());
    assert_eq!(gd.get(2, "a"), Some("2".to_string()));
}

#[test]
fn get_all_returns_every_pair() {
    let mut gd = GuildData::new();
    assert!(gd.get_all(5).is_none());
    gd.set(5, "a", "1");
    gd.set(5, "b", "2");
    let mut all = gd.get_all(5).unwrap();
    all.sort();
    assert_eq!(
        all,
        vec![("a".to_string(), "1".to_string()), ("b".to_string(), "2".to_string())]
    );
}

#[test]
fn has_key_checks_one_guild_only() {
    let mut gd = GuildData::new();
    gd.set(1, "a", "1");
    assert!(gd.has_key(1, "a"));
    assert!(!gd.has_key(1, "b"));
    assert!(!gd.has_key(2, "a"));
}
