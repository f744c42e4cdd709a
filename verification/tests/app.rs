use arpmac::app::{
    auto_refresh_due, App, Effect, Key, KeyCode, Modal, PendingAction, RefreshMsg, VendorMsg,
};
use arpmac::pf::reload_outcome;
use arpmac::net::{detect_sharing, Client};
use arpmac::ui::{
    footer_text, header_note, masked_password, password_reason, row_cells, row_style,
    status_line, table_title, vendor_heading, RowStyle,
};

fn key(c: char) -> Key {
    Key { code: KeyCode::Char(c), ctrl: false }
}

fn code(k: KeyCode) -> Key {
    Key { code: k, ctrl: false }
}

fn client(ip: &str, mac: &str, connected: bool) -> Client {
    Client {
        ip: ip.into(),
        mac: mac.into(),
        name: String::new(),
        connected,
        blocked: false,
        bytes_in: 0,
        bytes_out: 0,
    }
}

fn loaded() -> App {
    let mut app = App::new();
    let sharing = detect_sharing(Some(("bridge100".into(), "192.168.2.1".into(), 24)));
    let clients = vec![
        client("192.168.2.5", "aa:aa:aa:aa:aa:aa", true),
        client("192.168.2.6", "", true),
        client("192.168.2.7", "bb:bb:bb:bb:bb:bb", false),
    ];
    app.poll_background(vec![RefreshMsg::Done { sharing, clients }], vec![]);
    app
}

#[test]
fn new_session_starts_refreshing() {
    let app = App::new();
    assert!(app.refreshing);
    assert!(app.online_only);
    assert_eq!(app.status, "Refreshing…");
    assert!(matches!(app.modal, Modal::Closed));
    assert!(!app.needs_cursor());
}

#[test]
fn refresh_result_applied() {
    let app = loaded();
    assert!(!app.refreshing);
    assert_eq!(app.status, "");
    assert_eq!(app.clients.len(), 3);
    assert_eq!(app.online_count(), 2);
    assert_eq!(app.visible_clients().len(), 2);
}

#[test]
fn refresh_not_started_twice() {
    let mut app = loaded();
    assert!(matches!(app.handle_key(key('r')), Effect::StartRefresh));
    assert!(matches!(app.handle_key(key('r')), Effect::Nothing));
    assert_eq!(app.status, "Refreshing…");
}

#[test]
fn toggle_online_only_and_selection() {
    let mut app = loaded();
    app.handle_key(code(KeyCode::Down));
    app.handle_key(code(KeyCode::Down));
    assert_eq!(app.selected, 1);
    app.handle_key(key('a'));
    assert!(!app.online_only);
    assert_eq!(app.selected, 0);
    assert_eq!(app.status, "Showing all (incl. past guests)");
    assert_eq!(app.visible_clients().len(), 3);
    app.handle_key(key('j'));
    app.handle_key(key('j'));
    app.handle_key(key('j'));
    assert_eq!(app.selected, 2);
    app.handle_key(key('k'));
    app.handle_key(code(KeyCode::Up));
    app.handle_key(code(KeyCode::Up));
    assert_eq!(app.selected, 0);
    app.handle_key(key('a'));
    assert_eq!(app.status, "Showing online only");
}

#[test]
fn selection_clamped_after_refresh() {
    let mut app = loaded();
    app.handle_key(key('a'));
    app.handle_key(key('j'));
    app.handle_key(key('j'));
    assert_eq!(app.selected, 2);
    let sharing = detect_sharing(None);
    app.status = "Blocked 1.2.3.4".into();
    app.poll_background(vec![RefreshMsg::Done { sharing, clients: vec![client("192.168.2.5", "", true)] }], vec![]);
    assert_eq!(app.selected, 0);
    assert_eq!(app.status, "Blocked 1.2.3.4");
}

#[test]
fn quit_keys() {
    let mut app = loaded();
    assert!(matches!(app.handle_key(key('q')), Effect::Quit));
    assert!(matches!(app.handle_key(code(KeyCode::Esc)), Effect::Quit));
    assert!(matches!(app.handle_key(key('c')), Effect::Nothing));
    assert!(matches!(app.handle_key(Key { code: KeyCode::Char('c'), ctrl: true }), Effect::Quit));
}

#[test]
fn help_modal_dismissed() {
    let mut app = loaded();
    app.handle_key(key('?'));
    assert!(matches!(app.modal, Modal::Help));
    assert!(matches!(app.handle_key(key('x')), Effect::Nothing));
    assert!(matches!(app.modal, Modal::Help));
    assert!(matches!(app.handle_key(key('q')), Effect::Nothing));
    assert!(matches!(app.modal, Modal::Closed));
}

#[test]
fn block_asks_password_then_caches_it() {
    let mut app = loaded();
    assert!(matches!(app.handle_key(key('b')), Effect::Nothing));
    assert!(app.needs_cursor());
    assert!(matches!(app.handle_key(code(KeyCode::Enter)), Effect::Nothing));
    assert_eq!(app.status, "Password required");
    for c in "pw1x".chars() {
        app.handle_key(key(c));
    }
    app.handle_key(code(KeyCode::Backspace));
    match &app.modal {
        Modal::Password { input, action } => {
            assert_eq!(input, "pw1");
            assert!(matches!(action, PendingAction::Block(ip) if ip == "192.168.2.5"));
        }
        _ => panic!("no prompt"),
    }
    match app.handle_key(code(KeyCode::Enter)) {
        Effect::RunPf(PendingAction::Block(ip), pw) => {
            assert_eq!(ip, "192.168.2.5");
            assert_eq!(pw, "pw1");
        }
        _ => panic!("no run"),
    }
    assert!(matches!(app.pf_done(Ok(())), Effect::StartRefresh));
    assert!(matches!(app.modal, Modal::Closed));
    assert_eq!(app.status, "Refreshing…");
    // the cached password is used at once next time
    app.poll_background(vec![RefreshMsg::Done { sharing: detect_sharing(None), clients: vec![client("192.168.2.5", "", true)] }], vec![]);
    match app.handle_key(key('u')) {
        Effect::RunPf(PendingAction::Unblock(ip), pw) => {
            assert_eq!(ip, "192.168.2.5");
            assert_eq!(pw, "pw1");
        }
        _ => panic!("cached password not used"),
    }
    assert!(matches!(app.pf_done(Ok(())), Effect::StartRefresh));
}

#[test]
fn failed_password_is_reported_and_forgotten() {
    let mut app = loaded();
    app.handle_key(key('b'));
    app.handle_key(key('x'));
    app.handle_key(code(KeyCode::Enter));
    assert!(matches!(app.pf_done(Err("Sorry, try again.".into())), Effect::Nothing));
    assert_eq!(app.status, "Auth failed: Sorry, try again.");
    match &app.modal {
        Modal::Password { input, .. } => assert_eq!(input, ""),
        _ => panic!("prompt closed"),
    }
    app.handle_key(key('c'));
    assert!(matches!(app.modal, Modal::Closed));
    assert_eq!(app.status, "Cancelled");
    // no password cached: the prompt opens again
    assert!(matches!(app.handle_key(key('b')), Effect::Nothing));
    assert!(app.needs_cursor());
}

#[test]
fn cached_password_failure_reopens_prompt() {
    let mut app = loaded();
    app.handle_key(key('b'));
    app.handle_key(key('p'));
    app.handle_key(code(KeyCode::Enter));
    app.pf_done(Ok(()));
    app.refreshing = false;
    assert!(matches!(app.handle_key(key('b')), Effect::RunPf(..)));
    assert!(matches!(app.pf_done(Err("expired".into())), Effect::Nothing));
    assert!(app.needs_cursor());
    assert_eq!(app.status, "");
    assert!(matches!(app.pf_done(Ok(())), Effect::Nothing));
}

#[test]
fn vendor_lookup_then_cache() {
    let mut app = loaded();
    match app.handle_key(key('v')) {
        Effect::LookupVendor(mac) => assert_eq!(mac, "aa:aa:aa:aa:aa:aa"),
        _ => panic!("no lookup"),
    }
    assert_eq!(app.status, "Looking up vendor…");
    app.poll_background(vec![], vec![VendorMsg::Done { mac: "aa:aa:aa:aa:aa:aa".into(), result: Ok("Acme".into()) }]);
    match &app.modal {
        Modal::Vendor { mac, text } => {
            assert_eq!(mac, "aa:aa:aa:aa:aa:aa");
            assert_eq!(text, "Acme");
        }
        _ => panic!("no vendor modal"),
    }
    app.handle_key(code(KeyCode::Esc));
    assert!(matches!(app.handle_key(key('v')), Effect::Nothing));
    assert!(matches!(&app.modal, Modal::Vendor { text, .. } if text == "Acme"));
    app.handle_key(code(KeyCode::Esc));
    app.handle_key(key('j'));
    assert!(matches!(app.handle_key(key('v')), Effect::Nothing));
    assert_eq!(app.status, "No MAC address");
    app.poll_background(vec![], vec![VendorMsg::Done { mac: "zz".into(), result: Err("lookup failed".into()) }]);
    assert!(matches!(&app.modal, Modal::Vendor { text, .. } if text == "lookup failed"));
}

#[test]
fn no_client_selected() {
    let mut app = App::new();
    app.poll_background(vec![RefreshMsg::Done { sharing: detect_sharing(None), clients: vec![] }], vec![]);
    app.handle_key(key('b'));
    assert_eq!(app.status, "No client selected");
    app.handle_key(key('v'));
    assert_eq!(app.status, "No client selected");
    app.handle_key(code(KeyCode::Down));
    assert_eq!(app.selected, 0);
}

#[test]
fn screen_texts() {
    let s = detect_sharing(Some(("bridge100".into(), "192.168.2.1".into(), 24)));
    assert_eq!(status_line(&s, 2, 5, true), "ACTIVE  bridge100  192.168.2.1/24  2 online");
    assert_eq!(status_line(&s, 2, 5, false), "ACTIVE  bridge100  192.168.2.1/24  2 online / 5 total");
    assert_eq!(status_line(&detect_sharing(None), 0, 0, true), "INACTIVE — enable Internet Sharing in System Settings");
    assert_eq!(header_note(true, &"x".to_string()).as_deref(), Some("Refreshing…"));
    assert_eq!(header_note(false, &"x".to_string()).as_deref(), Some("x"));
    assert_eq!(header_note(false, &String::new()), None);
    let mut c = client("192.168.2.5", "aa", true);
    c.bytes_in = 2048;
    assert_eq!(row_cells(&c, true), vec!["▶ 192.168.2.5", "aa", "—", "● now", "2.0K", "—", ""]);
    c.blocked = true;
    c.connected = false;
    c.name = "pi".into();
    assert_eq!(row_cells(&c, false), vec!["  192.168.2.5", "aa", "pi", "  past", "2.0K", "—", "BLOCKED"]);
    assert!(matches!(row_style(&c, true), RowStyle::Selected));
    assert!(matches!(row_style(&c, false), RowStyle::Blocked));
    assert_eq!(table_title(true), " Clients (online only) ");
    assert_eq!(footer_text(true), "↑/↓ j/k select  r refresh  a show all  b block  u unblock  v vendor  ? help  q quit");
    assert_eq!(footer_text(false), "↑/↓ j/k select  r refresh  a show online  b block  u unblock  v vendor  ? help  q quit");
    assert_eq!(password_reason(&PendingAction::Unblock("1.2.3.4".into())), "Unblock 1.2.3.4");
    assert_eq!(masked_password(&"abc".to_string()), "Password: •••");
    assert_eq!(vendor_heading(&"aa:bb".to_string()), "MAC: aa:bb");
}

#[test]
fn auto_refresh_every_ten_seconds() {
    assert!(!auto_refresh_due(9_999));
    assert!(auto_refresh_due(10_000));
    assert!(auto_refresh_due(u64::MAX));
    // the first refresh is still in flight: nothing more starts
    let mut fresh = App::new();
    assert!(matches!(fresh.tick(10_000), Effect::Nothing));
    let mut app = loaded();
    app.status = "Blocked 192.168.2.5".into();
    assert!(matches!(app.tick(3_000), Effect::Nothing));
    assert!(!app.refreshing);
    assert_eq!(app.status, "Blocked 192.168.2.5");
    assert!(matches!(app.tick(10_000), Effect::StartRefresh));
    assert!(app.refreshing);
    assert_eq!(app.status, "Refreshing\u{2026}");
    assert!(matches!(app.tick(20_000), Effect::Nothing));
}

#[test]
fn failed_flush_does_not_cache_password() {
    let mut app = loaded();
    app.handle_key(key('u'));
    app.handle_key(key('w'));
    match app.handle_key(code(KeyCode::Enter)) {
        Effect::RunPf(PendingAction::Unblock(ip), pw) => {
            assert_eq!(ip, "192.168.2.5");
            assert_eq!(pw, "w");
        }
        _ => panic!("unblock not run"),
    }
    // the block list is now empty: the flush is what sudo rejected
    let outcome = reload_outcome(false, "Sorry, try again.");
    assert!(matches!(app.pf_done(outcome), Effect::Nothing));
    assert_eq!(app.status, "Auth failed: Sorry, try again.");
    app.handle_key(code(KeyCode::Esc));
    assert!(matches!(app.handle_key(key('u')), Effect::Nothing));
    assert!(app.needs_cursor());
}
