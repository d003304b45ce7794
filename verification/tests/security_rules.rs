use botcore::security::SecurityManager;

#[test]
fn blocked_users_are_tracked() {
    let mut sm = SecurityManager::new();
    assert!(!sm.is_user_blocked(7));
    sm.block_user(7);
    assert!(sm.is_user_blocked(7));
    // Blocking twice records once; one unblock fully lifts it.
    sm.block_user(7);
    sm.unblock_user(7);
    assert!(!sm.is_user_blocked(7));
    // Unblocking someone never blocked is a no-op.
    sm.unblock_user(8);
    assert!(!sm.is_user_blocked(8));
}

#[test]
fn roles_are_per_guild_and_user() {
    let mut sm = SecurityManager::new();
    sm.set_user_roles(1, 10, vec!["mod".to_string(), "dj".to_string()]);
    assert!(sm.has_role(1, 10, "mod"));
    assert!(sm.has_role(1, 10, "dj"));
    assert!(!sm.has_role(1, 10, "admin"));
    assert!(!sm.has_role(2, 10, "mod"));
    assert_eq!(sm.get_user_roles(1, 10), vec!["mod".to_string(), "dj".to_string()]);
    assert!(sm.get_user_roles(2, 10).is_empty());
    // A later set replaces the whole role set.
    sm.set_user_roles(1, 10, vec!["admin".to_string()]);
    assert!(!sm.has_role(1, 10, "mod"));
    assert!(sm.has_role(1, 10, "admin"));
}

#[test]
fn command_permissions_are_stored() {
    let mut sm = SecurityManager::new();
    assert_eq!(sm.get_command_permissions("ban"), None);
    sm.set_command_permissions("ban", 0x4);
    assert_eq!(sm.get_command_permissions("ban"), Some(0x4));
    sm.set_command_permissions("ban", 0x8);
    assert_eq!(sm.get_command_permissions("ban"), Some(0x8));
}

#[test]
fn rate_limit_gate_admits() {
    let mut sm = SecurityManager::new();
    sm.set_rate_limit("spammy", 2, 10_000);
    assert!(sm.check_rate_limit("spammy", 1));
    assert!(sm.check_rate_limit("other", 2));
}

#[test]
fn urls_must_name_a_web_scheme() {
    let sm = SecurityManager::new();
    assert!(sm.validate_url("http://example.com"));
    assert!(sm.validate_url("https://example.com/x?y=1"));
    assert!(!sm.validate_url("ftp://example.com"));
    assert!(!sm.validate_url("example.com"));
    assert!(!sm.validate_url("http:/"));
}

#[test]
fn markdown_is_escaped_verbatim() {
    let sm = SecurityManager::new();
    assert_eq!(sm.escape_markdown("*bold* _it_ `c` ~s~"), "\\*bold\\* \\_it\\_ \\`c\\` \\~s\\~");
    assert_eq!(sm.escape_markdown("plain"), "plain");
    assert_eq!(sm.escape_markdown(""), "");
}

#[test]
fn input_is_sanitized() {
    let sm = SecurityManager::new();
    assert_eq!(sm.sanitize_input("<b>hi</b>"), "&lt;b&gt;hi&lt;/b&gt;");
    assert_eq!(sm.sanitize_input("1 < 2 > 0"), "1 &lt; 2 &gt; 0");
    assert_eq!(sm.sanitize_input("clean"), "clean");
}
