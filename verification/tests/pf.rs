use arpmac::pf::{
    block, blocks_path, config_dir, parse_blocked, reload_command, reload_outcome, render_rules,
    unblock,
};

fn list(v: &[&str]) -> Vec<String> {
    v.iter().map(|s| s.to_string()).collect()
}

#[test]
fn rules_file_format() {
    let r = render_rules(&list(&["192.168.2.5", "192.168.2.6"]));
    assert_eq!(
        r,
        "block drop quick from 192.168.2.5 to any\nblock drop quick from any to 192.168.2.5\nblock drop quick from 192.168.2.6 to any\nblock drop quick from any to 192.168.2.6\n"
    );
    assert_eq!(render_rules(&vec![]), "");
}

#[test]
fn rules_file_read_back() {
    let ips = list(&["192.168.2.5", "192.168.2.9", "10.0.0.1"]);
    assert_eq!(parse_blocked(&render_rules(&ips)), ips);
    let text = "  block drop quick from 1.2.3.4 to any  \n# comment\nblock drop quick from any to 1.2.3.4\nblock drop quick from\npass all\nblock drop quick from 5.6.7.8\r\n";
    assert_eq!(parse_blocked(text), list(&["1.2.3.4", "5.6.7.8"]));
}

#[test]
fn block_adds_once() {
    let u = block(&list(&["192.168.2.5"]), "192.168.2.6");
    assert_eq!(u.blocked, list(&["192.168.2.5", "192.168.2.6"]));
    assert_eq!(u.rules.as_deref(), Some(render_rules(&u.blocked).as_str()));
    let again = block(&u.blocked, "192.168.2.6");
    assert_eq!(again.blocked, u.blocked);
    assert!(again.rules.is_none());
    assert!(parse_blocked(u.rules.as_deref().unwrap()).contains(&"192.168.2.6".to_string()));
}

#[test]
fn unblock_removes_every_copy() {
    let u = unblock(&list(&["a.b", "192.168.2.5", "c.d", "192.168.2.5"]), "192.168.2.5");
    assert_eq!(u.blocked, list(&["a.b", "c.d"]));
    let rules = u.rules.unwrap();
    assert_eq!(parse_blocked(&rules), list(&["a.b", "c.d"]));
    let empty = unblock(&list(&["192.168.2.5"]), "192.168.2.5");
    assert!(empty.blocked.is_empty());
    assert_eq!(empty.rules.as_deref(), Some(""));
}

#[test]
fn reload_flushes_an_empty_list() {
    assert_eq!(reload_command(&vec![], "/x/blocks.pf"), list(&["pfctl", "-a", "arpmac/block", "-F", "all"]));
    assert_eq!(
        reload_command(&list(&["1.2.3.4"]), "/x/blocks.pf"),
        list(&["pfctl", "-a", "arpmac/block", "-f", "/x/blocks.pf"])
    );
}

#[test]
fn reload_outcomes() {
    assert_eq!(reload_outcome(false, "Sorry, try again."), Err("Sorry, try again.".to_string()));
    assert_eq!(reload_outcome(true, ""), Ok(()));
    assert_eq!(reload_outcome(true, "warning"), Ok(()));
}

#[test]
fn config_paths() {
    assert_eq!(config_dir(Some("/Users/me")), "/Users/me/.config/arpmac");
    assert_eq!(config_dir(Some("/Users/me/")), "/Users/me/.config/arpmac");
    assert_eq!(config_dir(Some("")), ".config/arpmac");
    assert_eq!(config_dir(None), "/tmp/arpmac");
    assert_eq!(blocks_path(Some("/Users/me")), "/Users/me/.config/arpmac/blocks.pf");
    assert_eq!(blocks_path(None), "/tmp/arpmac/blocks.pf");
    let p = std::path::PathBuf::from("/Users/me").join(".config").join("arpmac").join("blocks.pf");
    assert_eq!(blocks_path(Some("/Users/me")), p.to_string_lossy());
}

#[test]
fn unblock_undoes_block() {
    let start = list(&["192.168.2.5", "10.0.0.7"]);
    let blocked = block(&start, "192.168.2.9");
    let restored = unblock(&blocked.blocked, "192.168.2.9");
    assert_eq!(restored.blocked, start);
    assert_eq!(restored.rules.as_deref(), Some(render_rules(&start).as_str()));
}

#[test]
fn unblock_undoes_block_through_the_file() {
    let file = render_rules(&list(&["192.168.2.5", "10.0.0.7"]));
    for ip in ["192.168.2.9", "any"] {
        let start = parse_blocked(&file);
        let blocked = block(&start, ip);
        let written = blocked.rules.unwrap();
        let read = parse_blocked(&written);
        let unblocked = unblock(&read, ip);
        assert_eq!(parse_blocked(&unblocked.rules.unwrap()), start);
    }
    // an IP with a space in it is not a single word: the law does not hold
    let start = parse_blocked(&file);
    let written = block(&start, "1.2.3.4 x").rules.unwrap();
    assert_eq!(parse_blocked(&written), list(&["192.168.2.5", "10.0.0.7", "1.2.3.4"]));
}
