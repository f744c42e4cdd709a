//! The text that the screen shows: header status, client rows, footer, and
//! the password prompt. The terminal drawing itself is left to the caller.
//!
//! ```text
//! ┌ monit — Internet Sharing ─────────────────────┐  ← status line
//! │ Status: ACTIVE  bridge100  192.168.2.1/24     │
//! ├ IP ─── MAC ─── Name ── Online ── ↓/↑ ─────────┤  ← client rows
//! │ ▶192.168.2.5  …        ● now   1.2K/340       │
//! ├───────────────────────────────────────────────┤
//! │ ↑/↓ select  r refresh  b block  …             │  ← footer
//! └───────────────────────────────────────────────┘
//! ```
use vstd::prelude::*;

use crate::app::{PendingAction, PendingView};
use crate::net::{bytes_text, format_bytes, Client, ClientView, Sharing};
use crate::text::{chars_of_string, dec_string, dec_text, push_char};

verus! {

/// The status text of the header: sharing state, interface, gateway/prefix,
/// and the online count (with the total when all clients are shown).
pub open spec fn status_text(
    active: bool,
    interface: Seq<char>,
    gateway: Seq<char>,
    prefix: u8,
    online: nat,
    total: nat,
    online_only: bool,
) -> Seq<char> {
    if active {
        let filter = if online_only {
            dec_text(online) + " online"@
        } else {
            dec_text(online) + " online / "@ + dec_text(total) + " total"@
        };
        "ACTIVE  "@ + interface + "  "@ + gateway + "/"@ + dec_text(prefix as nat) + "  "@ + filter
    } else {
        "INACTIVE \u{2014} enable Internet Sharing in System Settings"@
    }
}

/// Header status text for `sharing`, `online` connected clients out of `total`.
pub fn status_line(sharing: &Sharing, online: usize, total: usize, online_only: bool) -> (r: String)
    ensures
        r@ == status_text(
            sharing.active,
            sharing.interface@,
            sharing.gateway@,
            sharing.prefix,
            online as nat,
            total as nat,
            online_only,
        ),
{
    if !sharing.active {
        return String::from_str("INACTIVE \u{2014} enable Internet Sharing in System Settings");
    }
    let mut filter = dec_string(online as u64);
    if online_only {
        filter.append(" online");
    } else {
        filter.append(" online / ");
        let t = dec_string(total as u64);
        filter.append(t.as_str());
        filter.append(" total");
    }
    let mut r = String::from_str("ACTIVE  ");
    r.append(sharing.interface.as_str());
    r.append("  ");
    r.append(sharing.gateway.as_str());
    r.append("/");
    let p = dec_string(sharing.prefix as u64);
    r.append(p.as_str());
    r.append("  ");
    r.append(filter.as_str());
    r
}

/// The text of an optional string.
pub open spec fn opt_text_view(t: Option<String>) -> Option<Seq<char>> {
    match t {
        Some(s) => Some(s@),
        None => None,
    }
}

/// The note after the status: "Refreshing…" while a refresh runs, else the
/// status message when there is one.
pub fn header_note(refreshing: bool, status: &String) -> (r: Option<String>)
    ensures
        opt_text_view(r) == (if refreshing {
            Some("Refreshing\u{2026}"@)
        } else if status@.len() > 0 {
            Some(status@)
        } else {
            None
        }),
{
    if refreshing {
        Some(String::from_str("Refreshing\u{2026}"))
    } else if chars_of_string(status).len() > 0 {
        Some(status.clone())
    } else {
        None
    }
}

/// How a client row is colored.
pub enum RowStyle {
    /// Highlighted (reversed, bold).
    Selected,
    /// In the block list (red).
    Blocked,
    /// Connected now (green).
    Online,
    /// Only known from an old lease (dark gray).
    Past,
}

/// The style of a row: selection first, then blocked, then connected.
pub fn row_style(c: &Client, selected: bool) -> (r: RowStyle)
    ensures
        selected ==> r is Selected,
        !selected && c.blocked ==> r is Blocked,
        !selected && !c.blocked && c.connected ==> r is Online,
        !selected && !c.blocked && !c.connected ==> r is Past,
{
    if selected {
        RowStyle::Selected
    } else if c.blocked {
        RowStyle::Blocked
    } else if c.connected {
        RowStyle::Online
    } else {
        RowStyle::Past
    }
}

/// The cells of a client row: IP (marked `▶` when selected), MAC, name (`—`
/// when empty), `● now` or `  past`, bytes in, bytes out, `BLOCKED` or empty.
pub open spec fn row_texts(c: ClientView, selected: bool) -> Seq<Seq<char>> {
    seq![
        if selected {
            "\u{25B6} "@ + c.ip
        } else {
            "  "@ + c.ip
        },
        c.mac,
        if c.name.len() == 0 {
            "\u{2014}"@
        } else {
            c.name
        },
        if c.connected {
            "\u{25CF} now"@
        } else {
            "  past"@
        },
        bytes_text(c.bytes_in),
        bytes_text(c.bytes_out),
        if c.blocked {
            "BLOCKED"@
        } else {
            ""@
        },
    ]
}

/// The cells of one client row.
pub fn row_cells(c: &Client, selected: bool) -> (r: Vec<String>)
    ensures
        r@.map_values(|s: String| s@) == row_texts(c@, selected),
{
    let mut ip = if selected {
        String::from_str("\u{25B6} ")
    } else {
        String::from_str("  ")
    };
    ip.append(c.ip.as_str());
    let name = if chars_of_string(&c.name).len() == 0 {
        String::from_str("\u{2014}")
    } else {
        c.name.clone()
    };
    let online = if c.connected {
        String::from_str("\u{25CF} now")
    } else {
        String::from_str("  past")
    };
    let blocked = if c.blocked {
        String::from_str("BLOCKED")
    } else {
        String::from_str("")
    };
    let mut r: Vec<String> = Vec::new();
    r.push(ip);
    r.push(c.mac.clone());
    r.push(name);
    r.push(online);
    r.push(format_bytes(c.bytes_in));
    r.push(format_bytes(c.bytes_out));
    r.push(blocked);
    assert(r@.map_values(|s: String| s@) =~= row_texts(c@, selected));
    r
}

/// Title of the client table.
pub fn table_title(online_only: bool) -> (r: String)
    ensures
        online_only ==> r@ == " Clients (online only) "@,
        !online_only ==> r@ == " Clients (all \u{2014} \u{25CF} now = connected, past = old DHCP lease) "@,
{
    if online_only {
        String::from_str(" Clients (online only) ")
    } else {
        String::from_str(" Clients (all \u{2014} \u{25CF} now = connected, past = old DHCP lease) ")
    }
}

/// Keybinding hint line; the `a` label says what pressing it will show.
pub fn footer_text(online_only: bool) -> (r: String)
    ensures
        r@ == "\u{2191}/\u{2193} j/k select  r refresh  a show "@ + (if online_only {
            "all"@
        } else {
            "online"@
        }) + "  b block  u unblock  v vendor  ? help  q quit"@,
{
    let mut r = String::from_str("\u{2191}/\u{2193} j/k select  r refresh  a show ");
    if online_only {
        r.append("all");
    } else {
        r.append("online");
    }
    r.append("  b block  u unblock  v vendor  ? help  q quit");
    r
}

/// Why the password is asked for: `Block <ip>` or `Unblock <ip>`.
pub open spec fn reason_text(a: PendingView) -> Seq<char> {
    match a {
        PendingView::Block(ip) => "Block "@ + ip,
        PendingView::Unblock(ip) => "Unblock "@ + ip,
    }
}

/// The reason line of the password prompt.
pub fn password_reason(action: &PendingAction) -> (r: String)
    ensures
        r@ == reason_text(action@),
{
    let (word, ip) = match action {
        PendingAction::Block(ip) => ("Block ", ip),
        PendingAction::Unblock(ip) => ("Unblock ", ip),
    };
    let mut r = String::from_str(word);
    r.append(ip.as_str());
    r
}

/// The password line: `Password: ` and one `•` per typed char.
pub fn masked_password(input: &String) -> (r: String)
    ensures
        r@ == "Password: "@ + Seq::new(input@.len(), |i: int| '\u{2022}'),
{
    let n = chars_of_string(input).len();
    let mut r = String::from_str("Password: ");
    let ghost start = r@;
    let mut i: usize = 0;
    while i < n
        invariant
            i <= n,
            n == input@.len(),
            r@ == start + Seq::new(i as nat, |k: int| '\u{2022}'),
        decreases n - i,
    {
        push_char(&mut r, '\u{2022}');
        i = i + 1;
        assert(r@ =~= start + Seq::new(i as nat, |k: int| '\u{2022}'));
    }
    r
}

/// The first line of the vendor modal: `MAC: <mac>`.
pub fn vendor_heading(mac: &String) -> (r: String)
    ensures
        r@ == "MAC: "@ + mac@,
{
    let mut r = String::from_str("MAC: ");
    r.append(mac.as_str());
    r
}

} // verus!
