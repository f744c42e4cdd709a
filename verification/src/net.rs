//! Internet Sharing detection and Wi-Fi client discovery.
//!
//! The discovery data comes from four macOS sources, read by the caller and
//! handed in here as text:
//!
//! - `ifconfig <iface>` output: is there a bridge with an IPv4 address?
//! - `/var/db/dhcpd_leases`: every device that ever got a lease (names, MACs);
//! - `arp -a -i <bridge>`: who is on the bridge right now;
//! - `nettop -L 1 -n -x -d -t external`: byte counters per connection.
//!
//! A lease file looks like this:
//!
//! ```text
//! {
//!     ip_address=192.168.64.2
//!     hw_address=1,ee:df:e4:7b:50:4d
//!     identifier=1,ee:df:e4:7b:50:4d
//!     lease=0x6a02282f
//!     name=minint-1llret8
//! }
//! ```
use vstd::prelude::*;

use vstd::arithmetic::power2::{
    lemma2_to64, lemma2_to64_rest, lemma_pow2_adds, lemma_pow2_pos, lemma_pow2_strictly_increases,
    lemma_pow2_unfold, pow2,
};

use crate::assoc::{
    keys_distinct, lemma_pairs_map_dom, lemma_pairs_map_value, lemma_pairs_push, lemma_pairs_update,
    pairs_map,
};
use crate::ipv4::{
    in_subnet_chars, in_subnet_spec, ip_less, ip_lt, ipv4_value, lemma_ip_lt_total, lemma_ip_lt_transitive,
};
use crate::text::{
    after, all_digits, before_char, before_char_chars, chars_of, dec_value, digit_val, eq_chars,
    find_char, find_char_from, find_pat, find_pat_from, is_digit, lemma_dec_value_push,
    lemma_find_char, lemma_find_pat, lemma_lines_append, lines, slice, split, split_chars, split_lines, split_pat,
    split_pat_chars, split_words, starts_with, starts_with_chars, string_of, strip_prefix_chars,
    trim, trim_chars, views, words, chars_of_string,
    contains_pat, text_result, dec_text, dec_chars, dec_string,
};

verus! {

/// Result of checking whether Internet Sharing is active.
#[derive(Debug)]
pub struct Sharing {
    /// `true` when a bridge interface with an IPv4 address exists.
    pub active: bool,
    /// BSD interface name, usually `bridge100`.
    pub interface: String,
    /// Gateway IP on the shared subnet, usually `192.168.2.1`.
    pub gateway: String,
    /// CIDR prefix length derived from netmask, usually `24`.
    pub prefix: u8,
}

/// What a sharing status holds.
pub struct SharingView {
    pub active: bool,
    pub interface: Seq<char>,
    pub gateway: Seq<char>,
    pub prefix: u8,
}

impl View for Sharing {
    type V = SharingView;

    open spec fn view(&self) -> SharingView {
        SharingView {
            active: self.active,
            interface: self.interface@,
            gateway: self.gateway@,
            prefix: self.prefix,
        }
    }
}

impl Sharing {
    /// Sharing off, no interface, no gateway, prefix 0.
    pub open spec fn spec_default() -> SharingView {
        SharingView { active: false, interface: Seq::empty(), gateway: Seq::empty(), prefix: 0 }
    }
}

impl Default for Sharing {
    /// Sharing off, no interface, no gateway, prefix 0.
    fn default() -> (r: Sharing)
        ensures
            r@ == Sharing::spec_default(),
    {
        Sharing { active: false, interface: String::new(), gateway: String::new(), prefix: 0 }
    }
}

/// One row in the client table.
#[derive(Debug)]
pub struct Client {
    /// IPv4 address on the shared subnet.
    pub ip: String,
    /// Hardware MAC address.
    pub mac: String,
    /// Hostname from DHCP lease, if reported by the client.
    pub name: String,
    /// On the sharing bridge right now (bridge ARP or active nettop flows).
    pub connected: bool,
    /// Whether this IP is in the PF block list.
    pub blocked: bool,
    /// Bytes received from this client (nettop, current refresh).
    pub bytes_in: u64,
    /// Bytes sent to this client (nettop, current refresh).
    pub bytes_out: u64,
}

/// What a client row holds, as text and numbers.
pub struct ClientView {
    pub ip: Seq<char>,
    pub mac: Seq<char>,
    pub name: Seq<char>,
    pub connected: bool,
    pub blocked: bool,
    pub bytes_in: nat,
    pub bytes_out: nat,
}

impl View for Client {
    type V = ClientView;

    open spec fn view(&self) -> ClientView {
        ClientView {
            ip: self.ip@,
            mac: self.mac@,
            name: self.name@,
            connected: self.connected,
            blocked: self.blocked,
            bytes_in: self.bytes_in as nat,
            bytes_out: self.bytes_out as nat,
        }
    }
}

/// The views of a list of clients.
pub open spec fn client_views(v: Seq<Client>) -> Seq<ClientView> {
    v.map_values(|c: Client| c@)
}

/// One record of the DHCP lease file.
#[derive(Debug)]
pub struct LeaseRecord {
    /// Leased IPv4 address.
    pub ip: String,
    /// Hardware address, without the `1,` type prefix.
    pub mac: String,
    /// Host name reported by the client (may be empty).
    pub name: String,
}

/// What a lease record holds, as text.
pub struct LeaseView {
    pub ip: Seq<char>,
    pub mac: Seq<char>,
    pub name: Seq<char>,
}

impl View for LeaseRecord {
    type V = LeaseView;

    open spec fn view(&self) -> LeaseView {
        LeaseView { ip: self.ip@, mac: self.mac@, name: self.name@ }
    }
}

/// The views of a list of lease records.
pub open spec fn lease_views(v: Seq<LeaseRecord>) -> Seq<LeaseView> {
    v.map_values(|r: LeaseRecord| r@)
}

/// State of the lease-file scan: the fields of the record being read and the
/// records completed so far.
pub struct LeaseScan {
    pub ip: Seq<char>,
    pub mac: Seq<char>,
    pub name: Seq<char>,
    pub records: Seq<LeaseView>,
}

/// What one line of the lease file does to the scan. `{` starts a record
/// (clearing the fields), `}` ends it (kept only when it has an address), and
/// `ip_address=`, `hw_address=` (with an optional `1,` type prefix) and `name=`
/// set a field. Lines are trimmed first; anything else is ignored.
pub open spec fn lease_step(st: LeaseScan, raw: Seq<char>) -> LeaseScan {
    let line = trim(raw);
    if line == "{"@ {
        LeaseScan { ip: Seq::empty(), mac: Seq::empty(), name: Seq::empty(), records: st.records }
    } else if line == "}"@ {
        if st.ip.len() > 0 {
            LeaseScan {
                records: st.records.push(LeaseView { ip: st.ip, mac: st.mac, name: st.name }),
                ..st
            }
        } else {
            st
        }
    } else if starts_with(line, "ip_address="@) {
        LeaseScan { ip: after(line, "ip_address="@), ..st }
    } else if starts_with(line, "hw_address="@) {
        let v = after(line, "hw_address="@);
        LeaseScan {
            mac: if starts_with(v, "1,"@) {
                after(v, "1,"@)
            } else {
                v
            },
            ..st
        }
    } else if starts_with(line, "name="@) {
        LeaseScan { name: after(line, "name="@), ..st }
    } else {
        st
    }
}

/// The scan after the given lines.
pub open spec fn lease_scan(ls: Seq<Seq<char>>) -> LeaseScan
    decreases ls.len(),
{
    if ls.len() == 0 {
        LeaseScan {
            ip: Seq::empty(),
            mac: Seq::empty(),
            name: Seq::empty(),
            records: Seq::empty(),
        }
    } else {
        lease_step(lease_scan(ls.drop_last()), ls.last())
    }
}

/// The records of a lease file.
pub open spec fn leases_of(text: Seq<char>) -> Seq<LeaseView> {
    lease_scan(lines(text)).records
}

/// Parse the brace-delimited lease file format written by `bootpd`.
pub fn parse_leases(text: &str) -> (r: Vec<LeaseRecord>)
    ensures
        lease_views(r@) == leases_of(text@),
{
    let t = chars_of(text);
    let ls = split_lines(&t);
    let open_brace = chars_of("{");
    let close_brace = chars_of("}");
    let ip_key = chars_of("ip_address=");
    let hw_key = chars_of("hw_address=");
    let type_one = chars_of("1,");
    let name_key = chars_of("name=");
    let mut records: Vec<LeaseRecord> = Vec::new();
    let mut ip: Vec<char> = Vec::new();
    let mut mac: Vec<char> = Vec::new();
    let mut name: Vec<char> = Vec::new();
    let mut i: usize = 0;
    assert(lease_views(records@) =~= Seq::<LeaseView>::empty());
    assert(views(ls@).take(0) =~= Seq::<Seq<char>>::empty());
    assert(ip@ =~= Seq::<char>::empty());
    while i < ls.len()
        invariant
            i <= ls.len(),
            views(ls@) == lines(t@),
            t@ == text@,
            open_brace@ == "{"@,
            close_brace@ == "}"@,
            ip_key@ == "ip_address="@,
            hw_key@ == "hw_address="@,
            type_one@ == "1,"@,
            name_key@ == "name="@,
            (LeaseScan { ip: ip@, mac: mac@, name: name@, records: lease_views(records@) })
                == lease_scan(views(ls@).take(i as int)),
        decreases ls.len() - i,
    {
        let ghost prev = LeaseScan {
            ip: ip@,
            mac: mac@,
            name: name@,
            records: lease_views(records@),
        };
        let line = trim_chars(&ls[i]);
        proof {
            assert(views(ls@).take(i + 1).drop_last() =~= views(ls@).take(i as int));
            assert(views(ls@)[i as int] == ls@[i as int]@);
        }
        if eq_chars(&line, &open_brace) {
            ip = Vec::new();
            mac = Vec::new();
            name = Vec::new();
        } else if eq_chars(&line, &close_brace) {
            if ip.len() > 0 {
                let rec = LeaseRecord { ip: string_of(&ip), mac: string_of(&mac), name: string_of(&name) };
                records.push(rec);
                assert(lease_views(records@) =~= prev.records.push(
                    LeaseView { ip: prev.ip, mac: prev.mac, name: prev.name },
                ));
            }
        } else if let Some(v) = strip_prefix_chars(&line, &ip_key) {
            ip = v;
        } else if let Some(v) = strip_prefix_chars(&line, &hw_key) {
            mac = match strip_prefix_chars(&v, &type_one) {
                Some(w) => w,
                None => v,
            };
        } else if let Some(v) = strip_prefix_chars(&line, &name_key) {
            name = v;
        }
        i = i + 1;
    }
    assert(views(ls@).take(ls.len() as int) =~= views(ls@));
    records
}

// ---------------------------------------------------------------------------
// Text-keyed tables
// ---------------------------------------------------------------------------

/// The pairs of a text-to-text table, as text.
pub open spec fn text_pairs(v: Seq<(Vec<char>, Vec<char>)>) -> Seq<(Seq<char>, Seq<char>)> {
    v.map_values(|p: (Vec<char>, Vec<char>)| (p.0@, p.1@))
}

/// Index of key `k` in a text-to-text table.
fn index_of_text(v: &Vec<(Vec<char>, Vec<char>)>, k: &Vec<char>) -> (r: Option<usize>)
    ensures
        r matches Some(j) ==> j < v.len() && text_pairs(v@)[j as int].0 == k@,
        r is None ==> forall|i: int| 0 <= i < v.len() ==> #[trigger] text_pairs(v@)[i].0 != k@,
{
    let mut j: usize = 0;
    while j < v.len()
        invariant
            j <= v.len(),
            forall|i: int| 0 <= i < j ==> #[trigger] text_pairs(v@)[i].0 != k@,
        decreases v.len() - j,
    {
        if eq_chars(&v[j].0, k) {
            return Some(j);
        }
        j = j + 1;
    }
    None
}

/// Insert or replace `k -> x` in a text-to-text table.
fn put_text(v: &mut Vec<(Vec<char>, Vec<char>)>, k: Vec<char>, x: Vec<char>)
    requires
        keys_distinct(text_pairs(old(v)@)),
    ensures
        keys_distinct(text_pairs(final(v)@)),
        pairs_map(text_pairs(final(v)@)) == pairs_map(text_pairs(old(v)@)).insert(k@, x@),
{
    match index_of_text(v, &k) {
        Some(j) => {
            proof {
                lemma_pairs_update(text_pairs(v@), j as int, x@);
            }
            let ghost before = v@;
            v.set(j, (k, x));
            assert(text_pairs(v@) =~= text_pairs(before).update(
                j as int,
                (text_pairs(before)[j as int].0, x@),
            ));
        },
        None => {
            proof {
                lemma_pairs_push(text_pairs(v@), k@, x@);
            }
            let ghost before = v@;
            let ghost kv = k@;
            let ghost xv = x@;
            v.push((k, x));
            assert(text_pairs(v@) =~= text_pairs(before).push((kv, xv)));
        },
    }
}

// ---------------------------------------------------------------------------
// Bridge ARP table
// ---------------------------------------------------------------------------

/// `c` occurs in `t`.
pub open spec fn has_char(t: Seq<char>, c: char) -> bool {
    find_char(t, c, 0) < t.len()
}

/// The client that one line of `arp -a -i <bridge>` shows, as (IP, MAC): the
/// IP is between the first `(` and the next `)`, must be on the gateway's
/// network and not the gateway; the MAC is the first word after the first
/// ` at `, and must hold a `:` and not be `(incomplete)`.
pub open spec fn arp_entry(line: Seq<char>, gateway: Seq<char>, prefix: u8) -> Option<
    (Seq<char>, Seq<char>),
> {
    let start = find_char(line, '(', 0);
    let end = find_char(line, ')', start + 1);
    let at = find_pat(line, " at "@, 0);
    if start >= line.len() || end >= line.len() {
        None
    } else {
        let ip = line.subrange(start + 1, end);
        if ip == gateway || !in_subnet_spec(ip, gateway, prefix) || at >= line.len() {
            None
        } else {
            let ws = words(line.subrange(at + 4, line.len() as int));
            let mac = if ws.len() > 0 {
                ws[0]
            } else {
                Seq::empty()
            };
            if mac == "(incomplete)"@ || !has_char(mac, ':') {
                None
            } else {
                Some((ip, mac))
            }
        }
    }
}

/// IP-to-MAC table of the given ARP lines (a later line wins).
pub open spec fn arp_table(ls: Seq<Seq<char>>, gateway: Seq<char>, prefix: u8) -> Map<
    Seq<char>,
    Seq<char>,
>
    decreases ls.len(),
{
    if ls.len() == 0 {
        Map::empty()
    } else {
        let m = arp_table(ls.drop_last(), gateway, prefix);
        match arp_entry(ls.last(), gateway, prefix) {
            Some((ip, mac)) => m.insert(ip, mac),
            None => m,
        }
    }
}

/// One line of ARP output.
fn arp_line(line: &Vec<char>, gateway: &Vec<char>, prefix: u8) -> (r: Option<(Vec<char>, Vec<char>)>)
    requires
        prefix <= 32 || ipv4_value(gateway@) is None,
    ensures
        r matches Some(p) ==> arp_entry(line@, gateway@, prefix) == Some((p.0@, p.1@)),
        r is None ==> arp_entry(line@, gateway@, prefix) is None,
{
    let start = find_char_from(line, '(', 0);
    proof {
        lemma_find_char(line@, '(', 0);
    }
    if start >= line.len() {
        return None;
    }
    let end = find_char_from(line, ')', start + 1);
    proof {
        lemma_find_char(line@, ')', start + 1);
    }
    if end >= line.len() {
        return None;
    }
    let ip = slice(line, start + 1, end);
    if eq_chars(&ip, gateway) || !in_subnet_chars(&ip, gateway, prefix) {
        return None;
    }
    let at = find_pat_from(line, &chars_of(" at "), 0);
    proof {
        lemma_find_pat(line@, " at "@, 0);
    }
    if at >= line.len() {
        return None;
    }
    assert(" at "@.len() == 4) by {
        reveal_strlit(" at ");
    }
    let tail = slice(line, at + 4, line.len());
    let ws = split_words(&tail);
    let mac = if ws.len() > 0 {
        assert(views(ws@)[0] == ws@[0]@);
        slice(&ws[0], 0, ws[0].len())
    } else {
        Vec::new()
    };
    assert(mac@ == (if words(tail@).len() > 0 {
        words(tail@)[0]
    } else {
        Seq::empty()
    }));
    let colon = find_char_from(&mac, ':', 0);
    if eq_chars(&mac, &chars_of("(incomplete)")) || colon >= mac.len() {
        return None;
    }
    Some((ip, mac))
}

/// Clients on the sharing bridge right now, from `arp -a -i <bridge>` output.
pub fn connected_on_bridge(out: &Vec<char>, gateway: &Vec<char>, prefix: u8) -> (r: Vec<
    (Vec<char>, Vec<char>),
>)
    requires
        prefix <= 32 || ipv4_value(gateway@) is None,
    ensures
        keys_distinct(text_pairs(r@)),
        pairs_map(text_pairs(r@)) == arp_table(lines(out@), gateway@, prefix),
{
    let ls = split_lines(out);
    let mut table: Vec<(Vec<char>, Vec<char>)> = Vec::new();
    let mut i: usize = 0;
    assert(text_pairs(table@) =~= Seq::<(Seq<char>, Seq<char>)>::empty());
    assert(pairs_map(text_pairs(table@)) =~= arp_table(views(ls@).take(0), gateway@, prefix));
    while i < ls.len()
        invariant
            i <= ls.len(),
            prefix <= 32 || ipv4_value(gateway@) is None,
            views(ls@) == lines(out@),
            keys_distinct(text_pairs(table@)),
            pairs_map(text_pairs(table@)) == arp_table(views(ls@).take(i as int), gateway@, prefix),
        decreases ls.len() - i,
    {
        proof {
            assert(views(ls@).take(i + 1).drop_last() =~= views(ls@).take(i as int));
            assert(views(ls@)[i as int] == ls@[i as int]@);
        }
        match arp_line(&ls[i], gateway, prefix) {
            Some((ip, mac)) => put_text(&mut table, ip, mac),
            None => {},
        }
        i = i + 1;
    }
    assert(views(ls@).take(ls.len() as int) =~= views(ls@));
    table
}

// ---------------------------------------------------------------------------
// nettop byte counters
// ---------------------------------------------------------------------------

/// The first address among `parts` (each cut at its first `:`) that is on the
/// gateway's network and is not the gateway.
pub open spec fn first_client(parts: Seq<Seq<char>>, gateway: Seq<char>, prefix: u8) -> Option<
    Seq<char>,
>
    decreases parts.len(),
{
    if parts.len() == 0 {
        None
    } else {
        let addr = before_char(parts[0], ':');
        if in_subnet_spec(addr, gateway, prefix) && addr != gateway {
            Some(addr)
        } else {
            first_client(parts.drop_first(), gateway, prefix)
        }
    }
}

/// The client address in a nettop connection field such as
/// `tcp4 192.168.2.5:54321<->8.8.8.8:443`: the second word, split at `<->`.
pub open spec fn client_ip(conn: Seq<char>, gateway: Seq<char>, prefix: u8) -> Option<Seq<char>> {
    let ws = words(conn);
    if ws.len() < 2 {
        None
    } else {
        first_client(split_pat(ws[1], "<->"@), gateway, prefix)
    }
}

/// Client address of a connection field, on chars.
fn client_ip_chars(conn: &Vec<char>, gateway: &Vec<char>, prefix: u8) -> (r: Option<Vec<char>>)
    requires
        prefix <= 32 || ipv4_value(gateway@) is None,
    ensures
        r matches Some(v) ==> client_ip(conn@, gateway@, prefix) == Some(v@),
        r is None ==> client_ip(conn@, gateway@, prefix) is None,
{
    let ws = split_words(conn);
    if ws.len() < 2 {
        return None;
    }
    assert(views(ws@)[1] == ws@[1]@);
    let arrow = chars_of("<->");
    assert(arrow@.len() == 3) by {
        reveal_strlit("<->");
    }
    let parts = split_pat_chars(&ws[1], &arrow);
    let ghost ps = views(parts@);
    let mut k: usize = 0;
    assert(ps.subrange(0, ps.len() as int) =~= ps);
    while k < parts.len()
        invariant
            k <= parts.len(),
            prefix <= 32 || ipv4_value(gateway@) is None,
            ps == views(parts@),
            client_ip(conn@, gateway@, prefix) == first_client(
                ps.subrange(k as int, ps.len() as int),
                gateway@,
                prefix,
            ),
        decreases parts.len() - k,
    {
        assert(ps[k as int] == parts@[k as int]@);
        let addr = before_char_chars(&parts[k], ':');
        assert(ps.subrange(k as int, ps.len() as int)[0] == ps[k as int]);
        if in_subnet_chars(&addr, gateway, prefix) && !eq_chars(&addr, gateway) {
            return Some(addr);
        }
        assert(ps.subrange(k as int, ps.len() as int).drop_first() =~= ps.subrange(
            k + 1,
            ps.len() as int,
        ));
        k = k + 1;
    }
    None
}

/// Extract a client IP from a nettop connection field.
///
/// Example input: `tcp4 192.168.2.5:54321<->8.8.8.8:443`
pub fn extract_client_ip(conn: &str, gateway: &str, prefix: u8) -> (r: Option<String>)
    requires
        prefix <= 32 || ipv4_value(gateway@) is None,
    ensures
        r matches Some(v) ==> client_ip(conn@, gateway@, prefix) == Some(v@),
        r is None ==> client_ip(conn@, gateway@, prefix) is None,
{
    match client_ip_chars(&chars_of(conn), &chars_of(gateway), prefix) {
        Some(v) => Some(string_of(&v)),
        None => None,
    }
}

/// `str::parse::<u64>`: an optional `+` then decimal digits, at most `u64::MAX`.
pub open spec fn u64_value(t: Seq<char>) -> Option<u64> {
    let d = if t.len() > 0 && t[0] == '+' {
        t.drop_first()
    } else {
        t
    };
    if d.len() > 0 && all_digits(d) && dec_value(d) <= u64::MAX {
        Some(dec_value(d) as u64)
    } else {
        None
    }
}

/// The count in a nettop column, 0 when it is not a number.
pub open spec fn count_or_zero(t: Seq<char>) -> nat {
    match u64_value(t) {
        Some(v) => v as nat,
        None => 0,
    }
}

proof fn lemma_dec_value_prefix(t: Seq<char>, k: int)
    requires
        0 <= k <= t.len(),
    ensures
        dec_value(t.take(k)) <= dec_value(t),
    decreases t.len(),
{
    if k < t.len() {
        assert(t.drop_last().take(k) =~= t.take(k));
        lemma_dec_value_prefix(t.drop_last(), k);
    } else {
        assert(t.take(k) =~= t);
    }
}

/// Decimal number parse, as `str::parse::<u64>`.
pub fn parse_u64(t: &Vec<char>) -> (r: Option<u64>)
    ensures
        r == u64_value(t@),
{
    let start: usize = if t.len() > 0 && t[0] == '+' {
        1
    } else {
        0
    };
    let d = slice(t, start, t.len());
    assert(d@ == (if t@.len() > 0 && t@[0] == '+' {
        t@.drop_first()
    } else {
        t@
    }));
    if d.len() == 0 {
        return None;
    }
    let mut v: u64 = 0;
    let mut i: usize = 0;
    while i < d.len()
        invariant
            i <= d.len(),
            d.len() > 0,
            d@ == (if t@.len() > 0 && t@[0] == '+' {
                t@.drop_first()
            } else {
                t@
            }),
            all_digits(d@.take(i as int)),
            v == dec_value(d@.take(i as int)),
        decreases d.len() - i,
    {
        let c = d[i];
        if !('0' <= c && c <= '9') {
            assert(!is_digit(d@[i as int]));
            assert(!all_digits(d@));
            return None;
        }
        proof {
            lemma_dec_value_push(d@.take(i as int), c);
            assert(d@.take(i as int).push(c) =~= d@.take(i + 1));
        }
        assert(dec_value(d@.take(i + 1)) == v * 10 + digit_val(c));
        let dv = (c as u32 - '0' as u32) as u64;
        assert(dv == digit_val(c));
        match v.checked_mul(10) {
            Some(m) => match m.checked_add(dv) {
                Some(n) => {
                    v = n;
                },
                None => {
                    proof {
                        if all_digits(d@) {
                            lemma_dec_value_prefix(d@, i + 1);
                        }
                    }
                    assert(dec_value(d@.take(i + 1)) > u64::MAX);
                    return None;
                },
            },
            None => {
                proof {
                    if all_digits(d@) {
                        lemma_dec_value_prefix(d@, i + 1);
                    }
                }
                assert(dec_value(d@.take(i + 1)) > u64::MAX);
                return None;
            },
        }
        i = i + 1;
        assert forall|k: int| 0 <= k < i implies is_digit(#[trigger] d@.take(i as int)[k]) by {
            if k < i - 1 {
                assert(d@.take(i as int)[k] == d@.take(i - 1)[k]);
            }
        }
    }
    assert(d@.take(d.len() as int) =~= d@);
    Some(v)
}

/// What one nettop line contributes: (client IP, bytes in, bytes out). The
/// line is split at commas; it needs at least six columns, the second must
/// start with `tcp` or `udp` and name a client, and columns five and six are
/// the counts (0 when not numbers).
pub open spec fn nettop_entry(line: Seq<char>, gateway: Seq<char>, prefix: u8) -> Option<
    (Seq<char>, nat, nat),
> {
    let cols = split(line, ',');
    if cols.len() < 6 {
        None
    } else if !(starts_with(cols[1], "tcp"@) || starts_with(cols[1], "udp"@)) {
        None
    } else {
        match client_ip(cols[1], gateway, prefix) {
            Some(ip) => Some((ip, count_or_zero(cols[4]), count_or_zero(cols[5]))),
            None => None,
        }
    }
}

/// Per-client byte totals over the given nettop lines.
pub open spec fn nettop_totals(ls: Seq<Seq<char>>, gateway: Seq<char>, prefix: u8) -> Map<
    Seq<char>,
    (nat, nat),
>
    decreases ls.len(),
{
    if ls.len() == 0 {
        Map::empty()
    } else {
        let m = nettop_totals(ls.drop_last(), gateway, prefix);
        match nettop_entry(ls.last(), gateway, prefix) {
            Some((ip, a, b)) => {
                let prev = if m.contains_key(ip) {
                    m[ip]
                } else {
                    (0nat, 0nat)
                };
                m.insert(ip, ((prev.0 + a) as nat, (prev.1 + b) as nat))
            },
            None => m,
        }
    }
}

/// The lines after nettop's header line.
pub open spec fn after_header(ls: Seq<Seq<char>>) -> Seq<Seq<char>> {
    if ls.len() == 0 {
        ls
    } else {
        ls.drop_first()
    }
}

/// Per-client byte totals of a whole nettop output.
pub open spec fn bandwidth_of(out: Seq<char>, gateway: Seq<char>, prefix: u8) -> Map<
    Seq<char>,
    (nat, nat),
> {
    nettop_totals(after_header(lines(out)), gateway, prefix)
}

/// Every total fits in a `u64` (summing them in `u64` does not overflow).
pub open spec fn totals_fit(m: Map<Seq<char>, (nat, nat)>) -> bool {
    forall|k: Seq<char>| #[trigger]
        m.contains_key(k) ==> m[k].0 <= u64::MAX && m[k].1 <= u64::MAX
}

proof fn lemma_totals_grow(ls: Seq<Seq<char>>, gateway: Seq<char>, prefix: u8, i: int)
    requires
        0 <= i <= ls.len(),
    ensures
        forall|k: Seq<char>| #[trigger]
            nettop_totals(ls.take(i), gateway, prefix).contains_key(k) ==> nettop_totals(
                ls,
                gateway,
                prefix,
            ).contains_key(k) && nettop_totals(ls.take(i), gateway, prefix)[k].0 <= nettop_totals(
                ls,
                gateway,
                prefix,
            )[k].0 && nettop_totals(ls.take(i), gateway, prefix)[k].1 <= nettop_totals(
                ls,
                gateway,
                prefix,
            )[k].1,
    decreases ls.len(),
{
    if i == ls.len() {
        assert(ls.take(i) =~= ls);
    } else {
        assert(ls.drop_last().take(i) =~= ls.take(i));
        lemma_totals_grow(ls.drop_last(), gateway, prefix, i);
    }
}

/// The pairs of a byte-count table, as text and numbers.
pub open spec fn count_pairs(v: Seq<(Vec<char>, u64, u64)>) -> Seq<(Seq<char>, (nat, nat))> {
    v.map_values(|p: (Vec<char>, u64, u64)| (p.0@, (p.1 as nat, p.2 as nat)))
}

/// Index of key `k` in a byte-count table.
fn index_of_count(v: &Vec<(Vec<char>, u64, u64)>, k: &Vec<char>) -> (r: Option<usize>)
    ensures
        r matches Some(j) ==> j < v.len() && count_pairs(v@)[j as int].0 == k@,
        r is None ==> forall|i: int| 0 <= i < v.len() ==> #[trigger] count_pairs(v@)[i].0 != k@,
{
    let mut j: usize = 0;
    while j < v.len()
        invariant
            j <= v.len(),
            forall|i: int| 0 <= i < j ==> #[trigger] count_pairs(v@)[i].0 != k@,
        decreases v.len() - j,
    {
        if eq_chars(&v[j].0, k) {
            return Some(j);
        }
        j = j + 1;
    }
    None
}

/// Run over nettop output (`nettop -L 1 -n -x -d -t external`) and total the
/// byte counters per client IP. `None` when a total does not fit in a `u64`.
pub fn nettop_bandwidth(out: &Vec<char>, gateway: &Vec<char>, prefix: u8) -> (r: Option<
    Vec<(Vec<char>, u64, u64)>,
>)
    requires
        prefix <= 32 || ipv4_value(gateway@) is None,
    ensures
        r is Some <==> totals_fit(bandwidth_of(out@, gateway@, prefix)),
        r matches Some(v) ==> keys_distinct(count_pairs(v@)) && pairs_map(count_pairs(v@))
            == bandwidth_of(out@, gateway@, prefix),
{
    let all = split_lines(out);
    let ghost ls = after_header(views(all@));
    let mut table: Vec<(Vec<char>, u64, u64)> = Vec::new();
    let tcp = chars_of("tcp");
    let udp = chars_of("udp");
    let mut i: usize = 1;
    if all.len() == 0 {
        assert(ls.len() == 0);
        assert(pairs_map(count_pairs(table@)) =~= nettop_totals(ls, gateway@, prefix));
        return Some(table);
    }
    assert(count_pairs(table@) =~= Seq::<(Seq<char>, (nat, nat))>::empty());
    assert(pairs_map(count_pairs(table@)) =~= nettop_totals(ls.take(0), gateway@, prefix));
    while i < all.len()
        invariant
            1 <= i <= all.len(),
            prefix <= 32 || ipv4_value(gateway@) is None,
            views(all@) == lines(out@),
            ls == views(all@).drop_first(),
            tcp@ == "tcp"@,
            udp@ == "udp"@,
            keys_distinct(count_pairs(table@)),
            pairs_map(count_pairs(table@)) == nettop_totals(ls.take(i - 1), gateway@, prefix),
        decreases all.len() - i,
    {
        let ghost m = nettop_totals(ls.take(i - 1), gateway@, prefix);
        proof {
            assert(ls.take(i as int).drop_last() =~= ls.take(i - 1));
            assert(ls[i - 1] == all@[i as int]@);
            assert(ls.take(i as int).last() == ls[i - 1]);
        }
        let cols = split_chars(&all[i], ',');
        if cols.len() >= 6 {
            assert(views(cols@)[1] == cols@[1]@);
            assert(views(cols@)[4] == cols@[4]@);
            assert(views(cols@)[5] == cols@[5]@);
            if starts_with_chars(&cols[1], &tcp) || starts_with_chars(&cols[1], &udp) {
                match client_ip_chars(&cols[1], gateway, prefix) {
                    Some(ip) => {
                        let a: u64 = match parse_u64(&cols[4]) {
                            Some(x) => x,
                            None => 0,
                        };
                        let b: u64 = match parse_u64(&cols[5]) {
                            Some(x) => x,
                            None => 0,
                        };
                        let found = index_of_count(&table, &ip);
                        let ghost key = ip@;
                        match found {
                            Some(j) => {
                                assert(count_pairs(table@)[j as int].0 == ip@);
                                proof {
                                    lemma_pairs_map_value(count_pairs(table@), j as int);
                                }
                                let (pa, pb) = (table[j].1, table[j].2);
                                let na = pa.checked_add(a);
                                let nb = pb.checked_add(b);
                                if na.is_none() || nb.is_none() {
                                    proof {
                                        lemma_totals_grow(ls, gateway@, prefix, i as int);
                                        assert(nettop_totals(ls.take(i as int), gateway@, prefix).contains_key(key));
                                    }
                                    return None;
                                }
                                let na = na.unwrap();
                                let nb = nb.unwrap();
                                proof {
                                    lemma_pairs_update(count_pairs(table@), j as int, (na as nat, nb as nat));
                                }
                                let ghost before = table@;
                                table.set(j, (ip, na, nb));
                                assert(count_pairs(table@) =~= count_pairs(before).update(
                                    j as int,
                                    (count_pairs(before)[j as int].0, (na as nat, nb as nat)),
                                ));
                            },
                            None => {
                                proof {
                                    lemma_pairs_map_dom(count_pairs(table@), key);
                                    lemma_pairs_push(count_pairs(table@), key, (a as nat, b as nat));
                                }
                                let ghost before = table@;
                                table.push((ip, a, b));
                                assert(count_pairs(table@) =~= count_pairs(before).push(
                                    (key, (a as nat, b as nat)),
                                ));
                            },
                        }
                    },
                    None => {},
                }
            }
        }
        i = i + 1;
    }
    assert(ls.take(all.len() - 1) =~= ls);
    proof {
        assert forall|k: Seq<char>| #[trigger]
            pairs_map(count_pairs(table@)).contains_key(k) implies pairs_map(count_pairs(table@))[k].0 <= u64::MAX
                && pairs_map(count_pairs(table@))[k].1 <= u64::MAX by {
            lemma_pairs_map_dom(count_pairs(table@), k);
            let q = choose|q: int| 0 <= q < count_pairs(table@).len() && #[trigger] count_pairs(table@)[q].0 == k;
            lemma_pairs_map_value(count_pairs(table@), q);
        }
    }
    Some(table)
}

// ---------------------------------------------------------------------------
// Client discovery
// ---------------------------------------------------------------------------

/// Clients known from the lease records: those on the gateway's network other
/// than the gateway, keyed by IP (a later record for an IP wins).
pub open spec fn lease_clients(recs: Seq<LeaseView>, gateway: Seq<char>, prefix: u8) -> Map<
    Seq<char>,
    ClientView,
>
    decreases recs.len(),
{
    if recs.len() == 0 {
        Map::empty()
    } else {
        let m = lease_clients(recs.drop_last(), gateway, prefix);
        let r = recs.last();
        if in_subnet_spec(r.ip, gateway, prefix) && r.ip != gateway {
            m.insert(
                r.ip,
                ClientView {
                    ip: r.ip,
                    mac: r.mac,
                    name: r.name,
                    connected: false,
                    blocked: false,
                    bytes_in: 0,
                    bytes_out: 0,
                },
            )
        } else {
            m
        }
    }
}

/// The final row for `ip`: the lease row if there is one (its MAC filled in
/// from ARP when empty), else a row made from the ARP entry; connected when
/// on the bridge or seen by nettop; byte counts from nettop; blocked when the
/// IP is in the block list.
pub open spec fn merge_row(
    ip: Seq<char>,
    lease: Option<ClientView>,
    online: Map<Seq<char>, Seq<char>>,
    bandwidth: Map<Seq<char>, (nat, nat)>,
    blocked: Seq<Seq<char>>,
) -> ClientView {
    let on = online.contains_key(ip);
    let seen = bandwidth.contains_key(ip);
    let (mac, name) = match lease {
        Some(l) => (
            if on && l.mac.len() == 0 {
                online[ip]
            } else {
                l.mac
            },
            l.name,
        ),
        None => (online[ip], Seq::empty()),
    };
    ClientView {
        ip,
        mac,
        name,
        connected: on || seen,
        blocked: blocked.contains(ip),
        bytes_in: if seen {
            bandwidth[ip].0
        } else {
            0
        },
        bytes_out: if seen {
            bandwidth[ip].1
        } else {
            0
        },
    }
}

/// The lease records of an optional lease file (none when it could not be read).
pub open spec fn lease_records(leases: Option<Seq<char>>) -> Seq<LeaseView> {
    match leases {
        Some(text) => leases_of(text),
        None => Seq::empty(),
    }
}

/// All clients keyed by IP: every lease client and every bridge ARP entry.
pub open spec fn client_table(
    gateway: Seq<char>,
    prefix: u8,
    blocked: Seq<Seq<char>>,
    leases: Option<Seq<char>>,
    arp: Seq<char>,
    nettop: Seq<char>,
) -> Map<Seq<char>, ClientView> {
    let l = lease_clients(lease_records(leases), gateway, prefix);
    let on = arp_table(lines(arp), gateway, prefix);
    let bw = bandwidth_of(nettop, gateway, prefix);
    Map::new(
        |ip: Seq<char>| l.contains_key(ip) || on.contains_key(ip),
        |ip: Seq<char>|
            merge_row(
                ip,
                if l.contains_key(ip) {
                    Some(l[ip])
                } else {
                    None
                },
                on,
                bw,
                blocked,
            ),
    )
}

/// Table order: connected clients first, then by IP ascending (numeric
/// address order, see `ip_lt`).
pub open spec fn client_before(a: ClientView, b: ClientView) -> bool {
    (a.connected && !b.connected) || (a.connected == b.connected && ip_lt(a.ip, b.ip))
}

/// `v` lists exactly the rows of `table`, each IP once, in table order.
pub open spec fn lists_table(v: Seq<ClientView>, table: Map<Seq<char>, ClientView>) -> bool {
    &&& forall|i: int| 0 <= i < v.len() ==> #[trigger] table.contains_key(v[i].ip) && table[v[i].ip] == v[i]
    &&& forall|ip: Seq<char>| #[trigger] table.contains_key(ip) ==> exists|i: int| 0 <= i < v.len() && #[trigger] v[i].ip == ip
    &&& forall|i: int, j: int| 0 <= i < j < v.len() ==> client_before(v[i], v[j])
}

/// The text of a list of strings.
pub open spec fn string_views(v: Seq<String>) -> Seq<Seq<char>> {
    v.map_values(|s: String| s@)
}

/// A client row under construction.
struct Row {
    ip: Vec<char>,
    mac: Vec<char>,
    name: Vec<char>,
    connected: bool,
    blocked: bool,
    bytes_in: u64,
    bytes_out: u64,
}

impl View for Row {
    type V = ClientView;

    closed spec fn view(&self) -> ClientView {
        ClientView {
            ip: self.ip@,
            mac: self.mac@,
            name: self.name@,
            connected: self.connected,
            blocked: self.blocked,
            bytes_in: self.bytes_in as nat,
            bytes_out: self.bytes_out as nat,
        }
    }
}

spec fn row_views(v: Seq<Row>) -> Seq<ClientView> {
    v.map_values(|r: Row| r@)
}

spec fn row_pairs(v: Seq<Row>) -> Seq<(Seq<char>, ClientView)> {
    v.map_values(|r: Row| (r.ip@, r@))
}

fn copy_chars(v: &Vec<char>) -> (r: Vec<char>)
    ensures
        r@ == v@,
{
    slice(v, 0, v.len())
}

fn index_of_row(v: &Vec<Row>, k: &Vec<char>) -> (r: Option<usize>)
    ensures
        r matches Some(j) ==> j < v.len() && row_pairs(v@)[j as int].0 == k@,
        r is None ==> forall|i: int| 0 <= i < v.len() ==> #[trigger] row_pairs(v@)[i].0 != k@,
{
    let mut j: usize = 0;
    while j < v.len()
        invariant
            j <= v.len(),
            forall|i: int| 0 <= i < j ==> #[trigger] row_pairs(v@)[i].0 != k@,
        decreases v.len() - j,
    {
        if eq_chars(&v[j].ip, k) {
            return Some(j);
        }
        j = j + 1;
    }
    None
}

/// Lease rows keyed by IP.
fn lease_rows(recs: &Vec<LeaseRecord>, gateway: &Vec<char>, prefix: u8) -> (r: Vec<Row>)
    requires
        prefix <= 32 || ipv4_value(gateway@) is None,
    ensures
        keys_distinct(row_pairs(r@)),
        forall|i: int| 0 <= i < r.len() ==> (#[trigger] r@[i]).ip@ == r@[i]@.ip,
        pairs_map(row_pairs(r@)) == lease_clients(lease_views(recs@), gateway@, prefix),
{
    let mut rows: Vec<Row> = Vec::new();
    let mut i: usize = 0;
    assert(row_pairs(rows@) =~= Seq::<(Seq<char>, ClientView)>::empty());
    assert(lease_views(recs@).take(0) =~= Seq::<LeaseView>::empty());
    while i < recs.len()
        invariant
            i <= recs.len(),
            prefix <= 32 || ipv4_value(gateway@) is None,
            keys_distinct(row_pairs(rows@)),
            pairs_map(row_pairs(rows@)) == lease_clients(lease_views(recs@).take(i as int), gateway@, prefix),
        decreases recs.len() - i,
    {
        let ghost lv = lease_views(recs@);
        assert(lv.take(i + 1).drop_last() =~= lv.take(i as int));
        assert(lv.take(i + 1).last() == recs@[i as int]@);
        let ip = chars_of_string(&recs[i].ip);
        if in_subnet_chars(&ip, gateway, prefix) && !eq_chars(&ip, gateway) {
            let row = Row {
                ip: copy_chars(&ip),
                mac: chars_of_string(&recs[i].mac),
                name: chars_of_string(&recs[i].name),
                connected: false,
                blocked: false,
                bytes_in: 0,
                bytes_out: 0,
            };
            let ghost rv = row@;
            match index_of_row(&rows, &ip) {
                Some(j) => {
                    proof {
                        lemma_pairs_update(row_pairs(rows@), j as int, rv);
                    }
                    let ghost before = rows@;
                    rows.set(j, row);
                    assert(row_pairs(rows@) =~= row_pairs(before).update(
                        j as int,
                        (row_pairs(before)[j as int].0, rv),
                    ));
                },
                None => {
                    proof {
                        lemma_pairs_push(row_pairs(rows@), ip@, rv);
                    }
                    let ghost before = rows@;
                    rows.push(row);
                    assert(row_pairs(rows@) =~= row_pairs(before).push((ip@, rv)));
                },
            }
        }
        i = i + 1;
    }
    assert(lease_views(recs@).take(recs.len() as int) =~= lease_views(recs@));
    assert forall|i: int| 0 <= i < rows.len() implies (#[trigger] rows@[i]).ip@ == rows@[i]@.ip by {}
    rows
}

proof fn lemma_before_total(a: ClientView, b: ClientView)
    requires
        a.ip != b.ip,
    ensures
        client_before(a, b) || client_before(b, a),
{
    lemma_ip_lt_total(a.ip, b.ip);
}

proof fn lemma_before_transitive(a: ClientView, b: ClientView, c: ClientView)
    requires
        client_before(a, b),
        client_before(b, c),
    ensures
        client_before(a, c),
{
    if a.connected == b.connected && b.connected == c.connected {
        lemma_ip_lt_transitive(a.ip, b.ip, c.ip);
    }
}

/// Sorted in table order.
pub open spec fn in_table_order(v: Seq<ClientView>) -> bool {
    forall|i: int, j: int| 0 <= i < j < v.len() ==> client_before(v[i], v[j])
}

fn row_before(a: &Row, b: &Row) -> (r: bool)
    ensures
        r == client_before(a@, b@),
{
    (a.connected && !b.connected) || (a.connected == b.connected && ip_less(&a.ip, &b.ip))
}

/// Insert `row` at its place in a list kept in table order.
fn insert_in_order(out: &mut Vec<Row>, row: Row)
    requires
        in_table_order(row_views(old(out)@)),
        forall|i: int| 0 <= i < old(out).len() ==> (#[trigger] row_views(old(out)@)[i]).ip != row@.ip,
    ensures
        final(out).len() == old(out).len() + 1,
        in_table_order(row_views(final(out)@)),
        exists|p: int| 0 <= p <= old(out).len() && row_views(final(out)@) == row_views(old(out)@).insert(p, row@),
{
    let ghost old_views = row_views(out@);
    let mut p: usize = 0;
    while p < out.len() && !row_before(&row, &out[p])
        invariant
            p <= out.len(),
            out@ == old(out)@,
            forall|i: int| 0 <= i < p ==> client_before(#[trigger] row_views(out@)[i], row@),
            forall|i: int| 0 <= i < out.len() ==> (#[trigger] row_views(out@)[i]).ip != row@.ip,
        decreases out.len() - p,
    {
        proof {
            assert(row_views(out@)[p as int] == out@[p as int]@);
            lemma_before_total(row@, out@[p as int]@);
        }
        p = p + 1;
    }
    let ghost rv = row@;
    out.insert(p, row);
    assert(row_views(out@) =~= old_views.insert(p as int, rv));
    assert forall|i: int, j: int| 0 <= i < j < row_views(out@).len() implies client_before(
        row_views(out@)[i],
        row_views(out@)[j],
    ) by {
        let v = row_views(out@);
        if j < p {
            assert(v[i] == old_views[i] && v[j] == old_views[j]);
        } else if j == p {
            assert(v[i] == old_views[i]);
        } else if i == p {
            assert(v[j] == old_views[j - 1]);
            assert(p < old_views.len());
            assert(client_before(rv, old_views[p as int]));
            if j - 1 > p {
                lemma_before_transitive(rv, old_views[p as int], old_views[j - 1]);
            }
        } else if i < p {
            assert(v[i] == old_views[i] && v[j] == old_views[j - 1]);
            assert(client_before(old_views[i], rv));
            assert(client_before(rv, old_views[p as int]));
            lemma_before_transitive(old_views[i], rv, old_views[p as int]);
            if j - 1 > p {
                lemma_before_transitive(old_views[i], old_views[p as int], old_views[j - 1]);
            }
        } else {
            assert(v[i] == old_views[i - 1] && v[j] == old_views[j - 1]);
        }
    }
}

/// The optional lease row, as a view.
spec fn opt_row(lease: Option<&Row>) -> Option<ClientView> {
    match lease {
        Some(r) => Some(r@),
        None => None,
    }
}

/// Whether `ip` is in the block list.
fn listed(blocked: &Vec<Vec<char>>, ip: &Vec<char>) -> (r: bool)
    ensures
        r == views(blocked@).contains(ip@),
{
    let mut k: usize = 0;
    while k < blocked.len()
        invariant
            k <= blocked.len(),
            forall|q: int| 0 <= q < k ==> views(blocked@)[q] != ip@,
        decreases blocked.len() - k,
    {
        assert(views(blocked@)[k as int] == blocked@[k as int]@);
        if eq_chars(&blocked[k], ip) {
            return true;
        }
        k = k + 1;
    }
    false
}

/// The final row of one client.
fn final_row(
    ip: &Vec<char>,
    lease: Option<&Row>,
    online: &Vec<(Vec<char>, Vec<char>)>,
    bandwidth: &Vec<(Vec<char>, u64, u64)>,
    blocked: &Vec<Vec<char>>,
) -> (r: Row)
    requires
        keys_distinct(text_pairs(online@)),
        keys_distinct(count_pairs(bandwidth@)),
        lease is None ==> pairs_map(text_pairs(online@)).contains_key(ip@),
    ensures
        r@ == merge_row(
            ip@,
            opt_row(lease),
            pairs_map(text_pairs(online@)),
            pairs_map(count_pairs(bandwidth@)),
            views(blocked@),
        ),
{
    let ghost on = pairs_map(text_pairs(online@));
    let ghost bw = pairs_map(count_pairs(bandwidth@));
    let on_mac: Option<Vec<char>> = match index_of_text(online, ip) {
        Some(j) => {
            proof {
                lemma_pairs_map_value(text_pairs(online@), j as int);
            }
            Some(copy_chars(&online[j].1))
        },
        None => {
            proof {
                lemma_pairs_map_dom(text_pairs(online@), ip@);
            }
            None
        },
    };
    assert(on_mac is Some <==> on.contains_key(ip@));
    assert(on_mac matches Some(m) ==> m@ == on[ip@]);
    let counts: Option<(u64, u64)> = match index_of_count(bandwidth, ip) {
        Some(j) => {
            proof {
                lemma_pairs_map_value(count_pairs(bandwidth@), j as int);
            }
            Some((bandwidth[j].1, bandwidth[j].2))
        },
        None => {
            proof {
                lemma_pairs_map_dom(count_pairs(bandwidth@), ip@);
            }
            None
        },
    };
    assert(counts is Some <==> bw.contains_key(ip@));
    assert(counts matches Some(c) ==> c.0 as nat == bw[ip@].0 && c.1 as nat == bw[ip@].1);
    let (mac, name) = match lease {
        Some(l) => {
            let mac = match &on_mac {
                Some(m) => if l.mac.len() == 0 {
                    copy_chars(m)
                } else {
                    copy_chars(&l.mac)
                },
                None => copy_chars(&l.mac),
            };
            (mac, copy_chars(&l.name))
        },
        None => {
            let mac = match &on_mac {
                Some(m) => copy_chars(m),
                None => Vec::new(),
            };
            (mac, Vec::new())
        },
    };
    let (bytes_in, bytes_out) = match counts {
        Some(c) => c,
        None => (0, 0),
    };
    let r = Row {
        ip: copy_chars(ip),
        mac,
        name,
        connected: on_mac.is_some() || counts.is_some(),
        blocked: listed(blocked, ip),
        bytes_in,
        bytes_out,
    };
    assert(r@.name == merge_row(ip@, opt_row(lease), on, bw, views(blocked@)).name);
    r
}

/// The text of an optional string.
pub open spec fn opt_text(t: Option<&str>) -> Option<Seq<char>> {
    match t {
        Some(s) => Some(s@),
        None => None,
    }
}

/// Some row of `v` has this IP.
pub open spec fn has_ip(v: Seq<ClientView>, ip: Seq<char>) -> bool {
    exists|q: int| 0 <= q < v.len() && #[trigger] v[q].ip == ip
}

/// Every row of `v` is the row that `t` holds for its IP.
pub open spec fn rows_in(v: Seq<ClientView>, t: Map<Seq<char>, ClientView>) -> bool {
    forall|q: int| #![trigger v[q]] 0 <= q < v.len() ==> t.contains_key(v[q].ip) && t[v[q].ip] == v[q]
}

proof fn lemma_insert_facts(old: Seq<ClientView>, p: int, rv: ClientView, t: Map<Seq<char>, ClientView>)
    requires
        0 <= p <= old.len(),
        rows_in(old, t),
        t.contains_key(rv.ip),
        t[rv.ip] == rv,
    ensures
        rows_in(old.insert(p, rv), t),
        forall|x: Seq<char>|
            #![trigger has_ip(old.insert(p, rv), x)]
            has_ip(old.insert(p, rv), x) <==> (has_ip(old, x) || x == rv.ip),
{
    let v = old.insert(p, rv);
    assert forall|q: int| #![trigger v[q]] 0 <= q < v.len() implies t.contains_key(v[q].ip) && t[v[q].ip] == v[q] by {
        if q < p {
            assert(v[q] == old[q]);
        } else if q > p {
            assert(v[q] == old[q - 1]);
        }
    }
    assert forall|x: Seq<char>| has_ip(v, x) <==> (has_ip(old, x) || x == rv.ip) by {
        if has_ip(v, x) {
            let q = choose|q: int| 0 <= q < v.len() && #[trigger] v[q].ip == x;
            if q < p {
                assert(v[q] == old[q]);
            } else if q > p {
                assert(v[q] == old[q - 1]);
            }
        }
        if has_ip(old, x) {
            let q = choose|q: int| 0 <= q < old.len() && #[trigger] old[q].ip == x;
            if q < p {
                assert(v[q] == old[q]);
            } else {
                assert(v[q + 1] == old[q]);
            }
        }
        if x == rv.ip {
            assert(v[p] == rv);
        }
    }
}

/// All clients keyed by IP, from lease clients `l`, bridge entries `on`,
/// byte totals `bw` and the block list.
pub open spec fn merged_table(
    l: Map<Seq<char>, ClientView>,
    on: Map<Seq<char>, Seq<char>>,
    bw: Map<Seq<char>, (nat, nat)>,
    blocked: Seq<Seq<char>>,
) -> Map<Seq<char>, ClientView> {
    Map::new(
        |ip: Seq<char>| l.contains_key(ip) || on.contains_key(ip),
        |ip: Seq<char>|
            merge_row(
                ip,
                if l.contains_key(ip) {
                    Some(l[ip])
                } else {
                    None
                },
                on,
                bw,
                blocked,
            ),
    )
}

spec fn table_of(
    l: Seq<Row>,
    on: Seq<(Vec<char>, Vec<char>)>,
    bw: Seq<(Vec<char>, u64, u64)>,
    bl: Seq<Vec<char>>,
) -> Map<Seq<char>, ClientView> {
    merged_table(pairs_map(row_pairs(l)), pairs_map(text_pairs(on)), pairs_map(count_pairs(bw)), views(bl))
}

spec fn ip_views(l: Seq<Row>) -> bool {
    forall|q: int| 0 <= q < l.len() ==> (#[trigger] l[q]).ip@ == l[q]@.ip
}

/// Rows for every lease client.
fn add_lease_rows(
    out: &mut Vec<Row>,
    l: &Vec<Row>,
    on: &Vec<(Vec<char>, Vec<char>)>,
    bw: &Vec<(Vec<char>, u64, u64)>,
    bl: &Vec<Vec<char>>,
)
    requires
        old(out).len() == 0,
        keys_distinct(row_pairs(l@)),
        keys_distinct(text_pairs(on@)),
        keys_distinct(count_pairs(bw@)),
        ip_views(l@),
    ensures
        in_table_order(row_views(final(out)@)),
        rows_in(row_views(final(out)@), table_of(l@, on@, bw@, bl@)),
        forall|m: int| 0 <= m < l.len() ==> has_ip(row_views(final(out)@), #[trigger] l@[m].ip@),
        forall|q: int| 0 <= q < final(out).len() ==> pairs_map(row_pairs(l@)).contains_key(
            #[trigger] row_views(final(out)@)[q].ip,
        ),
{
    let ghost t = table_of(l@, on@, bw@, bl@);
    let ghost lmap = pairs_map(row_pairs(l@));
    let mut i: usize = 0;
    assert(in_table_order(row_views(out@)));
    while i < l.len()
        invariant
            i <= l.len(),
            keys_distinct(row_pairs(l@)),
            keys_distinct(text_pairs(on@)),
            keys_distinct(count_pairs(bw@)),
            ip_views(l@),
            t == table_of(l@, on@, bw@, bl@),
            lmap == pairs_map(row_pairs(l@)),
            in_table_order(row_views(out@)),
            rows_in(row_views(out@), t),
            forall|q: int| #![trigger row_views(out@)[q]] 0 <= q < out.len() ==> exists|m: int|
                0 <= m < i && #[trigger] l@[m].ip@ == row_views(out@)[q].ip,
            forall|m: int| 0 <= m < i ==> has_ip(row_views(out@), #[trigger] l@[m].ip@),
        decreases l.len() - i,
    {
        let row = final_row(&l[i].ip, Some(&l[i]), on, bw, bl);
        proof {
            lemma_pairs_map_value(row_pairs(l@), i as int);
            assert(row_pairs(l@)[i as int] == (l@[i as int].ip@, l@[i as int]@));
            assert(row@ == t[l@[i as int].ip@]);
            assert forall|q: int| 0 <= q < out.len() implies (#[trigger] row_views(out@)[q]).ip
                != row@.ip by {
                let m = choose|m: int| 0 <= m < i && #[trigger] l@[m].ip@ == row_views(out@)[q].ip;
                assert(row_pairs(l@)[m].0 != row_pairs(l@)[i as int].0);
            }
        }
        let ghost prev = row_views(out@);
        let ghost rv = row@;
        insert_in_order(out, row);
        proof {
            let p = choose|p: int| 0 <= p <= prev.len() && row_views(out@) == prev.insert(p, rv);
            lemma_insert_facts(prev, p, rv, t);
            assert forall|q: int| #![trigger row_views(out@)[q]] 0 <= q < out.len() implies exists|m: int|
                0 <= m < i + 1 && #[trigger] l@[m].ip@ == row_views(out@)[q].ip by {
                if q < p {
                    assert(row_views(out@)[q] == prev[q]);
                } else if q > p {
                    assert(row_views(out@)[q] == prev[q - 1]);
                } else {
                    assert(l@[i as int].ip@ == row_views(out@)[q].ip);
                }
            }
            assert forall|m: int| 0 <= m < i + 1 implies has_ip(row_views(out@), #[trigger] l@[m].ip@) by {
                if m < i {
                    assert(has_ip(prev, l@[m].ip@));
                }
            }
        }
        i = i + 1;
    }
    proof {
        assert forall|q: int| 0 <= q < out.len() implies lmap.contains_key(
            #[trigger] row_views(out@)[q].ip,
        ) by {
            let m = choose|m: int| 0 <= m < l.len() && #[trigger] l@[m].ip@ == row_views(out@)[q].ip;
            lemma_pairs_map_value(row_pairs(l@), m);
        }
    }
}

/// Rows for the bridge entries that have no lease.
fn add_arp_rows(
    out: &mut Vec<Row>,
    l: &Vec<Row>,
    on: &Vec<(Vec<char>, Vec<char>)>,
    bw: &Vec<(Vec<char>, u64, u64)>,
    bl: &Vec<Vec<char>>,
)
    requires
        keys_distinct(row_pairs(l@)),
        keys_distinct(text_pairs(on@)),
        keys_distinct(count_pairs(bw@)),
        ip_views(l@),
        in_table_order(row_views(old(out)@)),
        rows_in(row_views(old(out)@), table_of(l@, on@, bw@, bl@)),
        forall|m: int| 0 <= m < l.len() ==> has_ip(row_views(old(out)@), #[trigger] l@[m].ip@),
        forall|q: int| 0 <= q < old(out).len() ==> pairs_map(row_pairs(l@)).contains_key(
            #[trigger] row_views(old(out)@)[q].ip,
        ),
    ensures
        in_table_order(row_views(final(out)@)),
        rows_in(row_views(final(out)@), table_of(l@, on@, bw@, bl@)),
        forall|ip: Seq<char>| #[trigger]
            table_of(l@, on@, bw@, bl@).contains_key(ip) ==> has_ip(row_views(final(out)@), ip),
{
    let ghost t = table_of(l@, on@, bw@, bl@);
    let ghost lmap = pairs_map(row_pairs(l@));
    let ghost onmap = pairs_map(text_pairs(on@));
    let mut j: usize = 0;
    while j < on.len()
        invariant
            j <= on.len(),
            keys_distinct(row_pairs(l@)),
            keys_distinct(text_pairs(on@)),
            keys_distinct(count_pairs(bw@)),
            ip_views(l@),
            t == table_of(l@, on@, bw@, bl@),
            lmap == pairs_map(row_pairs(l@)),
            onmap == pairs_map(text_pairs(on@)),
            in_table_order(row_views(out@)),
            rows_in(row_views(out@), t),
            forall|q: int| #![trigger row_views(out@)[q]] 0 <= q < out.len() ==> lmap.contains_key(
                row_views(out@)[q].ip,
            ) || exists|m: int| 0 <= m < j && #[trigger] text_pairs(on@)[m].0 == row_views(out@)[q].ip,
            forall|m: int| 0 <= m < l.len() ==> has_ip(row_views(out@), #[trigger] l@[m].ip@),
            forall|m: int| 0 <= m < j ==> has_ip(row_views(out@), #[trigger] text_pairs(on@)[m].0),
        decreases on.len() - j,
    {
        let ghost key = on@[j as int].0@;
        assert(text_pairs(on@)[j as int].0 == key);
        proof {
            lemma_pairs_map_dom(row_pairs(l@), key);
        }
        match index_of_row(l, &on[j].0) {
            Some(_) => {
                proof {
                    let m = choose|m: int| 0 <= m < l.len() && #[trigger] row_pairs(l@)[m].0 == key;
                    assert(row_pairs(l@)[m].0 == l@[m].ip@);
                    assert(has_ip(row_views(out@), l@[m].ip@));
                    assert(has_ip(row_views(out@), text_pairs(on@)[j as int].0));
                }
            },
            None => {
                proof {
                    lemma_pairs_map_dom(text_pairs(on@), key);
                }
                let row = final_row(&on[j].0, None, on, bw, bl);
                proof {
                    assert(row@ == t[key]);
                    assert forall|q: int| 0 <= q < out.len() implies (#[trigger] row_views(
                        out@,
                    )[q]).ip != row@.ip by {
                        if !lmap.contains_key(row_views(out@)[q].ip) {
                            let m = choose|m: int|
                                0 <= m < j && #[trigger] text_pairs(on@)[m].0 == row_views(out@)[q].ip;
                            assert(text_pairs(on@)[m].0 != text_pairs(on@)[j as int].0);
                        }
                    }
                }
                let ghost prev = row_views(out@);
                let ghost rv = row@;
                insert_in_order(out, row);
                proof {
                    let p = choose|p: int| 0 <= p <= prev.len() && row_views(out@) == prev.insert(p, rv);
                    lemma_insert_facts(prev, p, rv, t);
                    assert forall|q: int| #![trigger row_views(out@)[q]] 0 <= q < out.len() implies lmap.contains_key(
                        row_views(out@)[q].ip,
                    ) || exists|m: int| 0 <= m < j + 1 && #[trigger] text_pairs(on@)[m].0 == row_views(out@)[q].ip by {
                        if q < p {
                            assert(row_views(out@)[q] == prev[q]);
                        } else if q > p {
                            assert(row_views(out@)[q] == prev[q - 1]);
                        } else {
                            assert(text_pairs(on@)[j as int].0 == row_views(out@)[q].ip);
                        }
                    }
                    assert forall|m: int| 0 <= m < l.len() implies has_ip(row_views(out@), #[trigger] l@[m].ip@) by {
                        assert(has_ip(prev, l@[m].ip@));
                    }
                    assert forall|m: int| 0 <= m < j implies has_ip(row_views(out@), #[trigger] text_pairs(on@)[m].0) by {
                        assert(has_ip(prev, text_pairs(on@)[m].0));
                    }
                    assert(has_ip(prev.insert(p, rv), rv.ip));
                    assert(has_ip(row_views(out@), text_pairs(on@)[j as int].0));
                }
            },
        }
        j = j + 1;
    }
    proof {
        assert forall|ip: Seq<char>| #[trigger] t.contains_key(ip) implies has_ip(row_views(out@), ip) by {
            if lmap.contains_key(ip) {
                lemma_pairs_map_dom(row_pairs(l@), ip);
                let m = choose|m: int| 0 <= m < l.len() && #[trigger] row_pairs(l@)[m].0 == ip;
                assert(row_pairs(l@)[m].0 == l@[m].ip@);
            } else {
                lemma_pairs_map_dom(text_pairs(on@), ip);
                let m = choose|m: int| 0 <= m < on.len() && #[trigger] text_pairs(on@)[m].0 == ip;
            }
        }
    }
}

fn blocked_chars(blocked: &Vec<String>) -> (r: Vec<Vec<char>>)
    ensures
        views(r@) == string_views(blocked@),
{
    let mut bl: Vec<Vec<char>> = Vec::new();
    let mut k: usize = 0;
    while k < blocked.len()
        invariant
            k <= blocked.len(),
            views(bl@) == string_views(blocked@).take(k as int),
        decreases blocked.len() - k,
    {
        let ghost before = bl@;
        let w = chars_of_string(&blocked[k]);
        bl.push(w);
        assert(bl@ == before.push(w));
        assert(views(bl@) =~= views(before).push(w@));
        assert(views(bl@) =~= string_views(blocked@).take(k + 1));
        k = k + 1;
    }
    assert(string_views(blocked@).take(blocked.len() as int) =~= string_views(blocked@));
    bl
}

fn to_clients(out: &Vec<Row>) -> (r: Vec<Client>)
    ensures
        client_views(r@) == row_views(out@),
{
    let mut r: Vec<Client> = Vec::new();
    let mut q: usize = 0;
    while q < out.len()
        invariant
            q <= out.len(),
            client_views(r@) == row_views(out@).take(q as int),
        decreases out.len() - q,
    {
        let c = Client {
            ip: string_of(&out[q].ip),
            mac: string_of(&out[q].mac),
            name: string_of(&out[q].name),
            connected: out[q].connected,
            blocked: out[q].blocked,
            bytes_in: out[q].bytes_in,
            bytes_out: out[q].bytes_out,
        };
        let ghost before = r@;
        r.push(c);
        assert(client_views(r@) =~= client_views(before).push(out@[q as int]@));
        assert(client_views(r@) =~= row_views(out@).take(q + 1));
        q = q + 1;
    }
    assert(row_views(out@).take(out.len() as int) =~= row_views(out@));
    r
}

/// Build the full client list from the lease file (`None` when it could not
/// be read), the bridge ARP output and the nettop output.
///
/// Returns an empty list when sharing is not active. Otherwise every lease
/// client and every bridge ARP entry appears once, merged as `merge_row`
/// says, connected clients first, then by IP ascending.
pub fn discover_clients(
    sharing: &Sharing,
    blocked: &Vec<String>,
    leases: Option<&str>,
    arp: &str,
    nettop: &str,
) -> (r: Vec<Client>)
    requires
        sharing.active ==> sharing.prefix <= 32 || ipv4_value(sharing.gateway@) is None,
        sharing.active ==> totals_fit(bandwidth_of(nettop@, sharing.gateway@, sharing.prefix)),
    ensures
        !sharing.active ==> r.len() == 0,
        sharing.active ==> lists_table(
            client_views(r@),
            client_table(
                sharing.gateway@,
                sharing.prefix,
                string_views(blocked@),
                opt_text(leases),
                arp@,
                nettop@,
            ),
        ),
{
    if !sharing.active {
        return Vec::new();
    }
    let prefix = sharing.prefix;
    let gw = chars_of_string(&sharing.gateway);
    let recs = match leases {
        Some(t) => parse_leases(t),
        None => Vec::new(),
    };
    assert(lease_views(recs@) == lease_records(opt_text(leases))) by {
        if leases is None {
            assert(lease_views(recs@) =~= Seq::<LeaseView>::empty());
        }
    }
    let l = lease_rows(&recs, &gw, prefix);
    let on = connected_on_bridge(&chars_of(arp), &gw, prefix);
    let bw = match nettop_bandwidth(&chars_of(nettop), &gw, prefix) {
        Some(b) => b,
        None => {
            return Vec::new();
        },
    };
    let bl = blocked_chars(blocked);
    let ghost t = table_of(l@, on@, bw@, bl@);
    assert(t =~= client_table(
        sharing.gateway@,
        prefix,
        string_views(blocked@),
        opt_text(leases),
        arp@,
        nettop@,
    ));
    let mut out: Vec<Row> = Vec::new();
    add_lease_rows(&mut out, &l, &on, &bw, &bl);
    add_arp_rows(&mut out, &l, &on, &bw, &bl);
    let r = to_clients(&out);
    proof {
        let v = client_views(r@);
        assert forall|ip: Seq<char>| #[trigger] t.contains_key(ip) implies exists|i: int|
            0 <= i < v.len() && #[trigger] v[i].ip == ip by {
            assert(has_ip(row_views(out@), ip));
        }
        assert forall|i: int| 0 <= i < v.len() implies #[trigger] t.contains_key(v[i].ip)
            && t[v[i].ip] == v[i] by {
            assert(v[i] == row_views(out@)[i]);
        }
    }
    r
}

// ---------------------------------------------------------------------------
// Bridge detection
// ---------------------------------------------------------------------------

/// An ASCII hexadecimal digit.
pub open spec fn is_hex(c: char) -> bool {
    ('0' <= c && c <= '9') || ('a' <= c && c <= 'f') || ('A' <= c && c <= 'F')
}

/// Value of an ASCII hexadecimal digit.
pub open spec fn hex_val(c: char) -> nat {
    if '0' <= c && c <= '9' {
        (c as int - '0' as int) as nat
    } else if 'a' <= c && c <= 'f' {
        (c as int - 'a' as int + 10) as nat
    } else {
        (c as int - 'A' as int + 10) as nat
    }
}

/// `t` is made of ASCII hexadecimal digits only.
pub open spec fn all_hex(t: Seq<char>) -> bool {
    forall|k: int| 0 <= k < t.len() ==> is_hex(#[trigger] t[k])
}

/// Hexadecimal value of a digit string.
pub open spec fn hex_value(t: Seq<char>) -> nat
    decreases t.len(),
{
    if t.len() == 0 {
        0
    } else {
        hex_value(t.drop_last()) * 16 + hex_val(t.last())
    }
}

/// `u32::from_str_radix(t, 16)`: an optional `+`, then hex digits, at most `u32::MAX`.
pub open spec fn u32_hex(t: Seq<char>) -> Option<u32> {
    let d = if t.len() > 0 && t[0] == '+' {
        t.drop_first()
    } else {
        t
    };
    if d.len() > 0 && all_hex(d) && hex_value(d) <= u32::MAX {
        Some(hex_value(d) as u32)
    } else {
        None
    }
}

/// Number of set bits of `n` among bits `k..32`.
pub open spec fn ones_from(n: u32, k: nat) -> nat
    decreases 32 - k,
{
    if k >= 32 {
        0
    } else {
        (if (n >> (k as u32)) & 1 == 1 {
            1nat
        } else {
            0nat
        }) + ones_from(n, k + 1)
    }
}

/// `u32::count_ones`.
pub open spec fn count_ones(n: u32) -> nat {
    ones_from(n, 0)
}

/// CIDR prefix length of a macOS hex netmask such as `0xffffff00`: the
/// number of set bits, or `None` when the text is not `0x` and a hex number.
pub open spec fn netmask_prefix(t: Seq<char>) -> Option<u8> {
    if starts_with(t, "0x"@) {
        match u32_hex(after(t, "0x"@)) {
            Some(n) => Some(count_ones(n) as u8),
            None => None,
        }
    } else {
        None
    }
}

proof fn lemma_ones_bound(n: u32, k: nat)
    requires
        k <= 32,
    ensures
        ones_from(n, k) <= 32 - k,
    decreases 32 - k,
{
    if k < 32 {
        lemma_ones_bound(n, k + 1);
    }
}

proof fn lemma_hex_value_prefix(t: Seq<char>, k: int)
    requires
        0 <= k <= t.len(),
    ensures
        hex_value(t.take(k)) <= hex_value(t),
    decreases t.len(),
{
    if k < t.len() {
        assert(t.drop_last().take(k) =~= t.take(k));
        lemma_hex_value_prefix(t.drop_last(), k);
    } else {
        assert(t.take(k) =~= t);
    }
}

fn hex_digit(c: char) -> (r: Option<u32>)
    ensures
        r is Some <==> is_hex(c),
        r matches Some(v) ==> v == hex_val(c) && v < 16,
{
    if '0' <= c && c <= '9' {
        Some(c as u32 - '0' as u32)
    } else if 'a' <= c && c <= 'f' {
        Some(c as u32 - 'a' as u32 + 10)
    } else if 'A' <= c && c <= 'F' {
        Some(c as u32 - 'A' as u32 + 10)
    } else {
        None
    }
}

/// Hexadecimal number parse, as `u32::from_str_radix(_, 16)`.
fn parse_hex_u32(t: &Vec<char>) -> (r: Option<u32>)
    ensures
        r == u32_hex(t@),
{
    let start: usize = if t.len() > 0 && t[0] == '+' {
        1
    } else {
        0
    };
    let d = slice(t, start, t.len());
    if d.len() == 0 {
        return None;
    }
    let mut v: u32 = 0;
    let mut i: usize = 0;
    while i < d.len()
        invariant
            i <= d.len(),
            d.len() > 0,
            d@ == (if t@.len() > 0 && t@[0] == '+' {
                t@.drop_first()
            } else {
                t@
            }),
            forall|k: int| 0 <= k < i ==> is_hex(#[trigger] d@[k]),
            v == hex_value(d@.take(i as int)),
        decreases d.len() - i,
    {
        let c = d[i];
        let dv = match hex_digit(c) {
            Some(x) => x,
            None => {
                assert(!is_hex(d@[i as int]));
                return None;
            },
        };
        proof {
            assert(d@.take(i as int).push(c) =~= d@.take(i + 1));
            assert(d@.take(i + 1).drop_last() =~= d@.take(i as int));
        }
        assert(hex_value(d@.take(i + 1)) == v * 16 + hex_val(c));
        match v.checked_mul(16) {
            Some(m) => match m.checked_add(dv) {
                Some(n) => {
                    v = n;
                },
                None => {
                    proof {
                        lemma_hex_value_prefix(d@, i + 1);
                    }
                    return None;
                },
            },
            None => {
                proof {
                    lemma_hex_value_prefix(d@, i + 1);
                }
                return None;
            },
        }
        i = i + 1;
    }
    assert(d@.take(d.len() as int) =~= d@);
    Some(v)
}

/// `u32::count_ones`.
fn count_ones_u32(n: u32) -> (r: u8)
    ensures
        r as nat == count_ones(n),
{
    let mut c: u32 = 0;
    let mut k: u32 = 0;
    while k < 32
        invariant
            k <= 32,
            c <= k,
            c + ones_from(n, k as nat) == ones_from(n, 0),
        decreases 32 - k,
    {
        if (n >> k) & 1 == 1 {
            c = c + 1;
        }
        k = k + 1;
    }
    c as u8
}

/// Convert macOS hex netmask (e.g. `0xffffff00`) to CIDR prefix length.
pub fn netmask_to_prefix(hex: &Vec<char>) -> (r: Option<u8>)
    ensures
        r == netmask_prefix(hex@),
{
    match strip_prefix_chars(hex, &chars_of("0x")) {
        Some(rest) => match parse_hex_u32(&rest) {
            Some(n) => Some(count_ones_u32(n)),
            None => None,
        },
        None => None,
    }
}

/// State of the scan of `ifconfig` output: the last `inet` address, the last
/// usable `netmask`, and whether a keyword line had no value (which makes the
/// whole parse fail).
pub struct IfScan {
    pub ip: Option<Seq<char>>,
    pub mask: Option<u8>,
    pub failed: bool,
}

/// The word right after the first `key` in `ws` that is followed by one.
pub open spec fn word_after(ws: Seq<Seq<char>>, key: Seq<char>) -> Option<Seq<char>>
    decreases ws.len(),
{
    if ws.len() < 2 {
        None
    } else if ws[0] == key {
        Some(ws[1])
    } else {
        word_after(ws.drop_first(), key)
    }
}

/// The mask after reading the hex netmask `hex`: its prefix length when it
/// is a usable netmask, else the mask read so far.
pub open spec fn mask_from(mask: Option<u8>, hex: Option<Seq<char>>) -> Option<u8> {
    match hex {
        Some(h) => match netmask_prefix(h) {
            Some(p) => Some(p),
            None => mask,
        },
        None => mask,
    }
}

/// What an `inet` line does to the scan: it gives the address, and the
/// netmask when it carries one after the word `netmask` (as macOS prints it).
pub open spec fn inet_step(st: IfScan, line: Seq<char>) -> IfScan {
    if starts_with(line, "inet "@) {
        let ws = words(after(line, "inet "@));
        if ws.len() == 0 {
            IfScan { failed: true, ..st }
        } else {
            IfScan {
                ip: Some(ws[0]),
                mask: mask_from(st.mask, word_after(ws.drop_first(), "netmask"@)),
                ..st
            }
        }
    } else {
        st
    }
}

/// What a line of its own starting with `netmask` does to the scan.
pub open spec fn netmask_step(st: IfScan, line: Seq<char>) -> IfScan {
    if starts_with(line, "netmask "@) {
        let ws = words(after(line, "netmask "@));
        if ws.len() == 0 {
            IfScan { failed: true, ..st }
        } else {
            IfScan { mask: mask_from(st.mask, Some(ws[0])), ..st }
        }
    } else {
        st
    }
}

/// What one line of `ifconfig` output does to the scan (the line trimmed).
pub open spec fn ifconfig_step(st: IfScan, raw: Seq<char>) -> IfScan {
    let line = trim(raw);
    if st.failed {
        st
    } else if inet_step(st, line).failed {
        inet_step(st, line)
    } else {
        netmask_step(inet_step(st, line), line)
    }
}

/// The scan after the given lines.
pub open spec fn ifconfig_scan(ls: Seq<Seq<char>>) -> IfScan
    decreases ls.len(),
{
    if ls.len() == 0 {
        IfScan { ip: None, mask: None, failed: false }
    } else {
        ifconfig_step(ifconfig_scan(ls.drop_last()), ls.last())
    }
}

/// Gateway address and prefix length of an interface from its `ifconfig`
/// output: `None` when it says the interface does not exist, when there is
/// no `inet` line, or when a keyword line has no value; the prefix is 24
/// when no usable `netmask` line is found.
pub open spec fn ifconfig_info(out: Seq<char>) -> Option<(Seq<char>, u8)> {
    if contains_pat(out, "does not exist"@) {
        None
    } else {
        let st = ifconfig_scan(lines(out));
        if st.failed {
            None
        } else {
            match st.ip {
                Some(ip) => Some((
                    ip,
                    match st.mask {
                        Some(m) => m,
                        None => 24,
                    },
                )),
                None => None,
            }
        }
    }
}

/// First word of `t`, if any.
fn first_word(t: &Vec<char>) -> (r: Option<Vec<char>>)
    ensures
        r is Some <==> words(t@).len() > 0,
        r matches Some(w) ==> w@ == words(t@)[0],
{
    let ws = split_words(t);
    if ws.len() == 0 {
        None
    } else {
        assert(views(ws@)[0] == ws@[0]@);
        Some(slice(&ws[0], 0, ws[0].len()))
    }
}

/// The word right after the first `key` among `ws[start..]` that is
/// followed by one.
fn word_after_from(ws: &Vec<Vec<char>>, start: usize, key: &Vec<char>) -> (r: Option<Vec<char>>)
    requires
        start <= ws.len(),
    ensures
        word_after(views(ws@).subrange(start as int, ws.len() as int), key@) == match r {
            Some(w) => Some(w@),
            None => None,
        },
{
    let ghost all = views(ws@);
    let mut j: usize = start;
    while ws.len() > 0 && j < ws.len() - 1
        invariant
            start <= j <= ws.len(),
            all == views(ws@),
            word_after(all.subrange(start as int, ws.len() as int), key@) == word_after(
                all.subrange(j as int, ws.len() as int),
                key@,
            ),
        decreases ws.len() - j,
    {
        let ghost sub = all.subrange(j as int, ws.len() as int);
        assert(sub[0] == ws@[j as int]@);
        assert(sub[1] == ws@[j + 1]@);
        if eq_chars(&ws[j], key) {
            return Some(slice(&ws[j + 1], 0, ws[j + 1].len()));
        }
        assert(sub.drop_first() =~= all.subrange(j + 1, ws.len() as int));
        j = j + 1;
    }
    None
}

/// Parse `ifconfig <iface>` output for `inet` and `netmask` lines.
///
/// Returns `(gateway_ip, prefix_length)`.
pub fn parse_ifconfig(out: &str) -> (r: Option<(String, u8)>)
    ensures
        r matches Some(p) ==> ifconfig_info(out@) == Some((p.0@, p.1)),
        r is None ==> ifconfig_info(out@) is None,
{
    let t = chars_of(out);
    let missing = find_pat_from(&t, &chars_of("does not exist"), 0);
    if missing < t.len() {
        return None;
    }
    let ls = split_lines(&t);
    let inet = chars_of("inet ");
    let netmask = chars_of("netmask ");
    let netmask_word = chars_of("netmask");
    let mut ip: Option<Vec<char>> = None;
    let mut mask: Option<u8> = None;
    let mut i: usize = 0;
    while i < ls.len()
        invariant
            i <= ls.len(),
            views(ls@) == lines(t@),
            t@ == out@,
            inet@ == "inet "@,
            netmask@ == "netmask "@,
            netmask_word@ == "netmask"@,
            ifconfig_scan(views(ls@).take(i as int)) == (IfScan {
                ip: match ip {
                    Some(v) => Some(v@),
                    None => None,
                },
                mask,
                failed: false,
            }),
        decreases ls.len() - i,
    {
        proof {
            assert(views(ls@).take(i + 1).drop_last() =~= views(ls@).take(i as int));
            assert(views(ls@)[i as int] == ls@[i as int]@);
        }
        let line = trim_chars(&ls[i]);
        let ghost st = ifconfig_scan(views(ls@).take(i as int));
        if let Some(rest) = strip_prefix_chars(&line, &inet) {
            let ws = split_words(&rest);
            if ws.len() == 0 {
                proof {
                    lemma_scan_stays_failed(views(ls@), i as int + 1);
                }
                return None;
            }
            assert(views(ws@)[0] == ws@[0]@);
            assert(views(ws@).subrange(1, ws.len() as int) =~= views(ws@).drop_first());
            let ghost m0 = mask;
            let ghost nw = word_after(views(ws@).drop_first(), "netmask"@);
            let first = slice(&ws[0], 0, ws[0].len());
            assert(first@ =~= ws@[0]@);
            ip = Some(first);
            let found = word_after_from(&ws, 1, &netmask_word);
            if let Some(h) = found {
                if let Some(p) = netmask_to_prefix(&h) {
                    mask = Some(p);
                }
            }
            assert(mask == mask_from(m0, nw));
            assert(words(after(line@, "inet "@)) == views(ws@));
        }
        assert(inet_step(st, line@) == (IfScan {
            ip: match ip {
                Some(v) => Some(v@),
                None => None,
            },
            mask,
            failed: false,
        }));
        if let Some(rest) = strip_prefix_chars(&line, &netmask) {
            match first_word(&rest) {
                Some(w) => {
                    if let Some(p) = netmask_to_prefix(&w) {
                        mask = Some(p);
                    }
                },
                None => {
                    proof {
                        lemma_scan_stays_failed(views(ls@), i as int + 1);
                    }
                    return None;
                },
            }
        }
        i = i + 1;
    }
    assert(views(ls@).take(ls.len() as int) =~= views(ls@));
    match ip {
        Some(v) => Some(
            (
                string_of(&v),
                match mask {
                    Some(m) => m,
                    None => 24,
                },
            ),
        ),
        None => None,
    }
}

/// Once a keyword line had no value the scan stays failed.
proof fn lemma_scan_stays_failed(ls: Seq<Seq<char>>, i: int)
    requires
        0 <= i <= ls.len(),
        ifconfig_scan(ls.take(i)).failed,
    ensures
        ifconfig_scan(ls).failed,
    decreases ls.len() - i,
{
    if i == ls.len() {
        assert(ls.take(i) =~= ls);
    } else {
        assert(ls.take(i + 1).drop_last() =~= ls.take(i));
        lemma_scan_stays_failed(ls, i + 1);
    }
}

/// Where the search for the sharing bridge stands.
pub enum BridgeSearch {
    /// Waiting for the output of `ifconfig bridge100`.
    Primary,
    /// Waiting for the output of `ifconfig -l`.
    Listing,
    /// Waiting for the output of `ifconfig <names[next]>`.
    Candidate { names: Vec<String>, next: usize },
}

/// What the search asks for next, or how it ended.
pub enum BridgeAction {
    /// Run `ifconfig <interface>` and hand back its output.
    Inspect(String),
    /// Run `ifconfig -l` and hand back its output.
    ListInterfaces,
    /// The bridge: interface, gateway address, prefix length.
    Found(String, String, u8),
    /// No bridge with an IPv4 address.
    NotFound,
}

/// The interface names that `ifconfig -l` lists and that start with `bridge`,
/// in order.
pub open spec fn bridge_names(list: Seq<char>) -> Seq<Seq<char>> {
    words(list).filter(|w: Seq<char>| starts_with(w, "bridge"@))
}

/// What a search state holds, as text.
pub enum SearchView {
    Primary,
    Listing,
    Candidate(Seq<Seq<char>>, nat),
}

/// What a search action holds, as text.
pub enum ActionView {
    Inspect(Seq<char>),
    ListInterfaces,
    Found(Seq<char>, Seq<char>, u8),
    NotFound,
}

impl View for BridgeSearch {
    type V = SearchView;

    open spec fn view(&self) -> SearchView {
        match self {
            BridgeSearch::Primary => SearchView::Primary,
            BridgeSearch::Listing => SearchView::Listing,
            BridgeSearch::Candidate { names, next } => SearchView::Candidate(
                string_views(names@),
                *next as nat,
            ),
        }
    }
}

impl View for BridgeAction {
    type V = ActionView;

    open spec fn view(&self) -> ActionView {
        match self {
            BridgeAction::Inspect(i) => ActionView::Inspect(i@),
            BridgeAction::ListInterfaces => ActionView::ListInterfaces,
            BridgeAction::Found(i, g, p) => ActionView::Found(i@, g@, *p),
            BridgeAction::NotFound => ActionView::NotFound,
        }
    }
}

/// The view of an optional search state.
pub open spec fn opt_search_view(s: Option<BridgeSearch>) -> Option<SearchView> {
    match s {
        Some(x) => Some(x@),
        None => None,
    }
}

/// One step of the search for the sharing bridge: given the output of the
/// command that the state waits for, the next state (`None` when the search
/// is over) and the action. `bridge100` wins when its `ifconfig` output has
/// an address; otherwise each listed `bridge*` interface is tried in order
/// and the first whose output has an address wins.
pub open spec fn bridge_step(s: SearchView, output: Seq<char>) -> (Option<SearchView>, ActionView) {
    match s {
        SearchView::Primary => match ifconfig_info(output) {
            Some((gw, p)) => (None, ActionView::Found("bridge100"@, gw, p)),
            None => (Some(SearchView::Listing), ActionView::ListInterfaces),
        },
        SearchView::Listing => {
            let ns = bridge_names(output);
            if ns.len() == 0 {
                (None, ActionView::NotFound)
            } else {
                (Some(SearchView::Candidate(ns, 0)), ActionView::Inspect(ns[0]))
            }
        },
        SearchView::Candidate(ns, k) => match ifconfig_info(output) {
            Some((gw, p)) => (None, ActionView::Found(ns[k as int], gw, p)),
            None => if k + 1 < ns.len() {
                (Some(SearchView::Candidate(ns, (k + 1) as nat)), ActionView::Inspect(ns[k + 1 as int]))
            } else {
                (None, ActionView::NotFound)
            },
        },
    }
}

impl BridgeSearch {
    /// A `Candidate` state points at one of its names.
    pub open spec fn valid(&self) -> bool {
        match self {
            BridgeSearch::Candidate { names, next } => *next < names.len(),
            _ => true,
        }
    }

    /// Start the search: first look at `bridge100`.
    pub fn start() -> (r: (BridgeSearch, BridgeAction))
        ensures
            r.0 is Primary,
            r.1@ == ActionView::Inspect("bridge100"@),
    {
        (BridgeSearch::Primary, BridgeAction::Inspect(String::from_str("bridge100")))
    }

    /// Feed the output of the command the search asked for; get the next state
    /// (`None` once the search is over) and what to do.
    ///
    /// `bridge100` wins when its output has an address; otherwise every
    /// listed `bridge*` interface is tried in order, and the first whose
    /// output has an address wins.
    pub fn step(self, output: &str) -> (r: (Option<BridgeSearch>, BridgeAction))
        requires
            self.valid(),
        ensures
            r.0 matches Some(s) ==> s.valid(),
            (opt_search_view(r.0), r.1@) == bridge_step(self@, output@),
    {
        match self {
            BridgeSearch::Primary => match parse_ifconfig(output) {
                Some((gw, p)) => (None, BridgeAction::Found(String::from_str("bridge100"), gw, p)),
                None => (Some(BridgeSearch::Listing), BridgeAction::ListInterfaces),
            },
            BridgeSearch::Listing => {
                let names = bridge_candidates(output);
                if names.len() == 0 {
                    (None, BridgeAction::NotFound)
                } else {
                    let first = names[0].clone();
                    assert(string_views(names@)[0] == names@[0]@);
                    (Some(BridgeSearch::Candidate { names, next: 0 }), BridgeAction::Inspect(first))
                }
            },
            BridgeSearch::Candidate { names, next } => match parse_ifconfig(output) {
                Some((gw, p)) => {
                    let name = names[next].clone();
                    assert(string_views(names@)[next as int] == names@[next as int]@);
                    (None, BridgeAction::Found(name, gw, p))
                },
                None => if next + 1 < names.len() {
                    let name = names[next + 1].clone();
                    assert(string_views(names@)[next + 1] == names@[next + 1]@);
                    (Some(BridgeSearch::Candidate { names, next: next + 1 }), BridgeAction::Inspect(name))
                } else {
                    (None, BridgeAction::NotFound)
                },
            },
        }
    }
}

/// The `bridge*` interfaces that `ifconfig -l` lists, in order.
pub fn bridge_candidates(list: &str) -> (r: Vec<String>)
    ensures
        string_views(r@) == bridge_names(list@),
{
    let ws = split_words(&chars_of(list));
    let prefix = chars_of("bridge");
    let mut r: Vec<String> = Vec::new();
    let mut i: usize = 0;
    let ghost all = views(ws@);
    let ghost pred = |w: Seq<char>| starts_with(w, "bridge"@);
    assert(all.take(0).filter(pred) =~= Seq::<Seq<char>>::empty());
    assert(string_views(r@) =~= Seq::<Seq<char>>::empty());
    while i < ws.len()
        invariant
            i <= ws.len(),
            all == views(ws@),
            prefix@ == "bridge"@,
            pred == (|w: Seq<char>| starts_with(w, "bridge"@)),
            string_views(r@) == all.take(i as int).filter(pred),
        decreases ws.len() - i,
    {
        proof {
            assert(all.take(i + 1).drop_last() =~= all.take(i as int));
            assert(all[i as int] == ws@[i as int]@);
            reveal_with_fuel(Seq::<_>::filter, 1);
        }
        if starts_with_chars(&ws[i], &prefix) {
            let ghost before = r@;
            r.push(string_of(&ws[i]));
            assert(string_views(r@) =~= string_views(before).push(all[i as int]));
        }
        i = i + 1;
    }
    assert(all.take(ws.len() as int) =~= all);
    r
}

/// The sharing status for the bridge that the search found (or did not find).
pub fn detect_sharing(found: Option<(String, String, u8)>) -> (r: Sharing)
    ensures
        r.active == found is Some,
        found matches Some(f) ==> r.interface@ == f.0@ && r.gateway@ == f.1@ && r.prefix == f.2,
        found is None ==> r@ == Sharing::spec_default(),
{
    let mut sharing = Sharing::default();
    if let Some((iface, gw, prefix)) = found {
        sharing.active = true;
        sharing.interface = iface;
        sharing.gateway = gw;
        sharing.prefix = prefix;
    }
    sharing
}

// ---------------------------------------------------------------------------
// MAC vendor lookup
// ---------------------------------------------------------------------------

/// The pieces joined with `:` between them.
pub open spec fn join_colon(ps: Seq<Seq<char>>) -> Seq<char>
    decreases ps.len(),
{
    if ps.len() == 0 {
        Seq::empty()
    } else if ps.len() == 1 {
        ps[0]
    } else {
        join_colon(ps.drop_last()) + seq![':'] + ps.last()
    }
}

/// The first three `:`-separated pieces of a MAC address, joined again (the OUI).
pub open spec fn oui_of(mac: Seq<char>) -> Seq<char> {
    let ps = split(mac, ':');
    join_colon(ps.take(if ps.len() < 3 { ps.len() as int } else { 3 }))
}

/// Number of bytes of `c` in UTF-8.
pub open spec fn utf8_len(c: char) -> nat {
    if c <= '\u{7F}' {
        1
    } else if c <= '\u{7FF}' {
        2
    } else if c <= '\u{FFFF}' {
        3
    } else {
        4
    }
}

/// Number of bytes of `t` in UTF-8 (`str::len`).
pub open spec fn utf8_size(t: Seq<char>) -> nat
    decreases t.len(),
{
    if t.len() == 0 {
        0
    } else {
        utf8_size(t.drop_last()) + utf8_len(t.last())
    }
}

/// The lookup URL for a MAC address, or the error when its OUI is shorter
/// than 8 bytes.
pub open spec fn vendor_url_spec(mac: Seq<char>) -> Result<Seq<char>, Seq<char>> {
    let oui = oui_of(mac);
    if utf8_size(oui) < 8 {
        Err("invalid MAC"@)
    } else {
        Ok("https://api.macvendors.com/"@ + oui)
    }
}

/// Whether `t` takes at least 8 bytes in UTF-8.
fn at_least_8_bytes(t: &Vec<char>) -> (r: bool)
    ensures
        r == (utf8_size(t@) >= 8),
{
    let mut n: u64 = 0;
    let mut i: usize = 0;
    while i < t.len()
        invariant
            i <= t.len(),
            n == utf8_size(t@.take(i as int)),
            n < 8,
        decreases t.len() - i,
    {
        let c = t[i];
        let w: u64 = if c <= '\u{7F}' {
            1
        } else if c <= '\u{7FF}' {
            2
        } else if c <= '\u{FFFF}' {
            3
        } else {
            4
        };
        assert(w == utf8_len(c));
        assert(t@.take(i + 1).drop_last() =~= t@.take(i as int));
        n = n + w;
        i = i + 1;
        if n >= 8 {
            proof {
                lemma_utf8_size_prefix(t@, i as int);
            }
            return true;
        }
    }
    assert(t@.take(t.len() as int) =~= t@);
    false
}

proof fn lemma_utf8_size_prefix(t: Seq<char>, k: int)
    requires
        0 <= k <= t.len(),
    ensures
        utf8_size(t.take(k)) <= utf8_size(t),
    decreases t.len(),
{
    if k < t.len() {
        assert(t.drop_last().take(k) =~= t.take(k));
        lemma_utf8_size_prefix(t.drop_last(), k);
    } else {
        assert(t.take(k) =~= t);
    }
}

/// The OUI of a MAC address.
fn oui_chars(mac: &Vec<char>) -> (r: Vec<char>)
    ensures
        r@ == oui_of(mac@),
{
    let ps = split_chars(mac, ':');
    let n: usize = if ps.len() < 3 {
        ps.len()
    } else {
        3
    };
    let ghost pv = views(ps@);
    let mut r: Vec<char> = Vec::new();
    let mut i: usize = 0;
    assert(pv.take(0) =~= Seq::<Seq<char>>::empty());
    while i < n
        invariant
            i <= n <= ps.len(),
            n <= 3,
            pv == views(ps@),
            r@ == join_colon(pv.take(i as int)),
        decreases n - i,
    {
        assert(pv[i as int] == ps@[i as int]@);
        assert(pv.take(i + 1).drop_last() =~= pv.take(i as int));
        if i > 0 {
            r.push(':');
        }
        let piece = &ps[i];
        let mut k: usize = 0;
        let ghost start = r@;
        while k < piece.len()
            invariant
                k <= piece.len(),
                r@ == start + piece@.take(k as int),
            decreases piece.len() - k,
        {
            r.push(piece[k]);
            k = k + 1;
            assert(r@ =~= start + piece@.take(k as int));
        }
        assert(piece@.take(piece.len() as int) =~= piece@);
        proof {
            if i == 0 {
                assert(r@ =~= pv.take(1)[0]);
            } else {
                assert(r@ =~= join_colon(pv.take(i as int)) + seq![':'] + pv[i as int]);
            }
        }
        i = i + 1;
    }
    r
}

/// The `api.macvendors.com` URL for a MAC address (by its first three
/// octets), or `Err("invalid MAC")` when those take fewer than 8 bytes.
pub fn vendor_url(mac: &str) -> (r: Result<String, String>)
    ensures
        text_result(r) == vendor_url_spec(mac@),
{
    let oui = oui_chars(&chars_of(mac));
    if !at_least_8_bytes(&oui) {
        return Err(String::from_str("invalid MAC"));
    }
    let mut url = String::from_str("https://api.macvendors.com/");
    let o = string_of(&oui);
    url.append(o.as_str());
    Ok(url)
}

/// The vendor name from the lookup's exit status and output: the trimmed
/// output, or `Err("lookup failed")` when the lookup did not succeed.
pub fn vendor_reply(success: bool, stdout: &str) -> (r: Result<String, String>)
    ensures
        text_result(r) == (if success {
            Ok(trim(stdout@))
        } else {
            Err("lookup failed"@)
        }),
{
    if !success {
        return Err(String::from_str("lookup failed"));
    }
    Ok(string_of(&trim_chars(&chars_of(stdout))))
}

// ---------------------------------------------------------------------------
// Byte counts for display
// ---------------------------------------------------------------------------

/// Number of binary digits of `n` (0 for 0).
pub open spec fn bit_len(n: nat) -> nat
    decreases n,
{
    if n == 0 {
        0
    } else {
        1 + bit_len(n / 2)
    }
}

/// `a / d` rounded to the nearest integer, ties to the even one.
pub open spec fn round_half_even(a: nat, d: nat) -> nat {
    let q = a / d;
    let r = a % d;
    if 2 * r > d || (2 * r == d && q % 2 == 1) {
        q + 1
    } else {
        q
    }
}

/// The value of `n as f64`: `n` rounded to 53 significant bits, ties to even.
pub open spec fn f64_value(n: nat) -> nat {
    if n < pow2(53) {
        n
    } else {
        let unit = pow2((bit_len(n) - 53) as nat);
        round_half_even(n, unit) * unit
    }
}

/// `t / 10` written with one decimal: `<t / 10>.<t % 10>`.
pub open spec fn tenths_text(t: nat) -> Seq<char> {
    dec_text(t / 10) + seq!['.'] + dec_text(t % 10)
}

/// What `format_bytes` shows: `—` for 0, the number below 1024, else the
/// count in KiB (below 1 MiB) or MiB with one decimal and a `K` or `M`
/// suffix, as `{:.1}` prints the `f64` quotient (ties to even).
pub open spec fn bytes_text(n: nat) -> Seq<char> {
    if n >= 1048576 {
        tenths_text(round_half_even(f64_value(n) * 10, 1048576)) + "M"@
    } else if n >= 1024 {
        tenths_text(round_half_even(n * 10, 1024)) + "K"@
    } else if n > 0 {
        dec_text(n)
    } else {
        "\u{2014}"@
    }
}

proof fn lemma_bit_len_bounds(n: nat)
    requires
        n > 0,
    ensures
        pow2((bit_len(n) - 1) as nat) <= n < pow2(bit_len(n)),
        bit_len(n) >= 1,
    decreases n,
{
    lemma_pow2_unfold(bit_len(n));
    if n >= 2 {
        let h = n / 2;
        lemma_bit_len_bounds(h);
        assert(bit_len(n) == 1 + bit_len(h));
        lemma_pow2_unfold(bit_len(h));
        assert(pow2(bit_len(n)) == 2 * pow2(bit_len(h)));
        assert(pow2(bit_len(h)) == 2 * pow2((bit_len(h) - 1) as nat));
        assert(n < pow2(bit_len(n)));
        assert(pow2((bit_len(n) - 1) as nat) <= n);
    } else {
        lemma2_to64();
        assert(bit_len(0) == 0);
        assert(bit_len(n) == 1);
    }
}

proof fn lemma_pow2_monotone(a: nat, b: nat)
    requires
        a <= b,
    ensures
        pow2(a) <= pow2(b),
{
    if a < b {
        lemma_pow2_strictly_increases(a, b);
    }
}

fn round_half_even_u128(a: u128, d: u128) -> (r: u128)
    requires
        d > 0,
        d <= 0x1_0000_0000,
        a < 0x1_0000_0000_0000_0000_0000_0000,
    ensures
        r == round_half_even(a as nat, d as nat),
{
    let q = a / d;
    let rem = a % d;
    if 2 * rem > d || (2 * rem == d && q % 2 == 1) {
        q + 1
    } else {
        q
    }
}

/// `n as f64`, as an exact integer.
fn f64_of_u64(n: u64) -> (r: u128)
    ensures
        r == f64_value(n as nat),
        r <= 0x1_0000_0000_0000_0000,
{
    proof {
        lemma2_to64();
        lemma2_to64_rest();
    }
    if n < 0x20_0000_0000_0000 {
        return n as u128;
    }
    let mut b: u64 = 0;
    let mut m: u64 = n;
    while m > 0
        invariant
            b + bit_len(m as nat) == bit_len(n as nat),
            b <= 64,
            m as nat * pow2(b as nat) <= n,
        decreases m,
    {
        assert(m as nat * pow2(b as nat) <= n);
        proof {
            lemma_pow2_unfold((b + 1) as nat);
            lemma_pow2_pos(b as nat);
            assert(pow2(b as nat) <= m as nat * pow2(b as nat)) by (nonlinear_arith)
                requires
                    m >= 1,
            ;
            if b >= 64 {
                lemma_pow2_monotone(64, b as nat);
                lemma2_to64();
            }
        }
        assert((m / 2) as nat * pow2((b + 1) as nat) <= m as nat * pow2(b as nat)) by (nonlinear_arith)
            requires
                pow2((b + 1) as nat) == 2 * pow2(b as nat),
        ;
        m = m / 2;
        b = b + 1;
    }
    proof {
        lemma_bit_len_bounds(n as nat);
        if bit_len(n as nat) < 54 {
            lemma_pow2_monotone((bit_len(n as nat)) as nat, 53);
        }
    }
    let shift = b - 53;
    let mut unit: u128 = 1;
    let mut k: u64 = 0;
    while k < shift
        invariant
            k <= shift <= 11,
            unit == pow2(k as nat),
        decreases shift - k,
    {
        proof {
            lemma_pow2_monotone((k + 1) as nat, 11);
            lemma2_to64();
            lemma_pow2_unfold((k + 1) as nat);
        }
        unit = unit * 2;
        k = k + 1;
    }
    let q = round_half_even_u128(n as u128, unit);
    proof {
        assert(q <= n as nat / unit as nat + 1);
        assert(q * unit <= n as nat + unit) by (nonlinear_arith)
            requires
                q <= n as nat / unit as nat + 1,
                unit > 0,
        ;
        assert(pow2(53) * unit == pow2(bit_len(n as nat))) by {
            lemma_pow2_adds(53, shift as nat);
        }
        lemma_pow2_monotone(bit_len(n as nat), 64);
        assert(q * unit <= 0x1_0000_0000_0000_0000) by (nonlinear_arith)
            requires
                q * unit <= n as nat + unit,
                n < pow2(bit_len(n as nat)),
                pow2(bit_len(n as nat)) <= 0x1_0000_0000_0000_0000,
                unit * pow2(53) == pow2(bit_len(n as nat)),
                unit > 0,
                q <= n as nat / unit as nat + 1,
        {
            assert(n as nat / unit as nat <= pow2(53) - 1) by (nonlinear_arith)
                requires
                    n < pow2(bit_len(n as nat)),
                    unit * pow2(53) == pow2(bit_len(n as nat)),
                    unit > 0,
            ;
        }
    }
    q * unit
}

fn tenths_chars(t: u64) -> (r: Vec<char>)
    ensures
        r@ == tenths_text(t as nat),
{
    let mut v = dec_chars(t / 10);
    v.push('.');
    let frac = dec_chars(t % 10);
    let ghost before = v@;
    let mut k: usize = 0;
    while k < frac.len()
        invariant
            k <= frac.len(),
            v@ == before + frac@.take(k as int),
        decreases frac.len() - k,
    {
        v.push(frac[k]);
        k = k + 1;
        assert(v@ =~= before + frac@.take(k as int));
    }
    assert(frac@.take(frac.len() as int) =~= frac@);
    v
}

/// Format a byte count for table display (`—`, `512`, `1.2K`, `3.4M`).
pub fn format_bytes(n: u64) -> (r: String)
    ensures
        r@ == bytes_text(n as nat),
{
    if n >= 1048576 {
        let f = f64_of_u64(n);
        let t = round_half_even_u128(f * 10, 1048576);
        proof {
            assert(t <= (f * 10) as nat / 1048576 + 1);
        }
        let mut v = tenths_chars(t as u64);
        v.push('M');
        let r = string_of(&v);
        proof {
            reveal_strlit("M");
            assert(r@ =~= tenths_text(t as nat) + "M"@);
        }
        r
    } else if n >= 1024 {
        let t = round_half_even_u128(n as u128 * 10, 1024);
        let mut v = tenths_chars(t as u64);
        v.push('K');
        let r = string_of(&v);
        proof {
            reveal_strlit("K");
            assert(r@ =~= tenths_text(t as nat) + "K"@);
        }
        r
    } else if n > 0 {
        dec_string(n)
    } else {
        String::from_str("\u{2014}")
    }
}

// ---------------------------------------------------------------------------
// Laws
// ---------------------------------------------------------------------------

/// Every lease record that the parser keeps has an address.
pub proof fn lemma_leases_have_ip(text: Seq<char>)
    ensures
        forall|i: int| 0 <= i < leases_of(text).len() ==> (#[trigger] leases_of(text)[i]).ip.len() > 0,
{
    lemma_scan_records_have_ip(lines(text));
}

proof fn lemma_scan_records_have_ip(ls: Seq<Seq<char>>)
    ensures
        forall|i: int| 0 <= i < lease_scan(ls).records.len() ==> (#[trigger] lease_scan(ls).records[i]).ip.len() > 0,
    decreases ls.len(),
{
    if ls.len() > 0 {
        lemma_scan_records_have_ip(ls.drop_last());
        let prev = lease_scan(ls.drop_last());
        let next = lease_scan(ls);
        assert forall|i: int| 0 <= i < next.records.len() implies (#[trigger] next.records[i]).ip.len() > 0 by {
            if i < prev.records.len() {
                assert(next.records[i] == prev.records[i]);
            }
        }
    }
}

proof fn lemma_lease_clients_keys(recs: Seq<LeaseView>, gateway: Seq<char>, prefix: u8)
    ensures
        forall|ip: Seq<char>| #[trigger] lease_clients(recs, gateway, prefix).contains_key(ip) ==>
            in_subnet_spec(ip, gateway, prefix) && ip != gateway
            && lease_clients(recs, gateway, prefix)[ip].ip == ip,
    decreases recs.len(),
{
    if recs.len() > 0 {
        lemma_lease_clients_keys(recs.drop_last(), gateway, prefix);
        let m = lease_clients(recs.drop_last(), gateway, prefix);
        let r = recs.last();
        assert forall|ip: Seq<char>| #[trigger] lease_clients(recs, gateway, prefix).contains_key(ip) implies
            in_subnet_spec(ip, gateway, prefix) && ip != gateway
            && lease_clients(recs, gateway, prefix)[ip].ip == ip by {
            if !(in_subnet_spec(r.ip, gateway, prefix) && r.ip != gateway && ip == r.ip) {
                assert(m.contains_key(ip));
            }
        }
    }
}

proof fn lemma_arp_table_keys(ls: Seq<Seq<char>>, gateway: Seq<char>, prefix: u8)
    ensures
        forall|ip: Seq<char>| #[trigger] arp_table(ls, gateway, prefix).contains_key(ip) ==>
            in_subnet_spec(ip, gateway, prefix) && ip != gateway,
    decreases ls.len(),
{
    if ls.len() > 0 {
        lemma_arp_table_keys(ls.drop_last(), gateway, prefix);
        let m = arp_table(ls.drop_last(), gateway, prefix);
        assert forall|ip: Seq<char>| #[trigger] arp_table(ls, gateway, prefix).contains_key(ip) implies
            in_subnet_spec(ip, gateway, prefix) && ip != gateway by {
            match arp_entry(ls.last(), gateway, prefix) {
                Some((a, mac)) => {
                    if ip != a {
                        assert(m.contains_key(ip));
                    }
                },
                None => {
                    assert(m.contains_key(ip));
                },
            }
        }
    }
}

/// Every client of the table is on the gateway's network, is not the
/// gateway itself, and its row carries its own IP.
pub proof fn lemma_clients_on_subnet(
    gateway: Seq<char>,
    prefix: u8,
    blocked: Seq<Seq<char>>,
    leases: Option<Seq<char>>,
    arp: Seq<char>,
    nettop: Seq<char>,
)
    ensures
        forall|ip: Seq<char>| #[trigger]
            client_table(gateway, prefix, blocked, leases, arp, nettop).contains_key(ip) ==> in_subnet_spec(
                ip,
                gateway,
                prefix,
            ) && ip != gateway && client_table(gateway, prefix, blocked, leases, arp, nettop)[ip].ip
                == ip,
{
    lemma_lease_clients_keys(lease_records(leases), gateway, prefix);
    lemma_arp_table_keys(lines(arp), gateway, prefix);
}

/// A client is connected exactly when it is on the bridge ARP table or
/// nettop saw traffic for it; it is blocked exactly when its IP is listed.
pub proof fn lemma_connected_and_blocked(
    gateway: Seq<char>,
    prefix: u8,
    blocked: Seq<Seq<char>>,
    leases: Option<Seq<char>>,
    arp: Seq<char>,
    nettop: Seq<char>,
    ip: Seq<char>,
)
    requires
        client_table(gateway, prefix, blocked, leases, arp, nettop).contains_key(ip),
    ensures
        client_table(gateway, prefix, blocked, leases, arp, nettop)[ip].connected == (arp_table(
            lines(arp),
            gateway,
            prefix,
        ).contains_key(ip) || bandwidth_of(nettop, gateway, prefix).contains_key(ip)),
        client_table(gateway, prefix, blocked, leases, arp, nettop)[ip].blocked == blocked.contains(ip),
{
}

proof fn lemma_netmask_prefix_bound(mask: Option<u8>, hex: Option<Seq<char>>)
    requires
        mask matches Some(m) ==> m <= 32,
    ensures
        mask_from(mask, hex) matches Some(m) ==> m <= 32,
{
    if let Some(h) = hex {
        if starts_with(h, "0x"@) {
            if let Some(n) = u32_hex(after(h, "0x"@)) {
                lemma_ones_bound(n, 0);
            }
        }
    }
}

proof fn lemma_scan_mask_bound(ls: Seq<Seq<char>>)
    ensures
        ifconfig_scan(ls).mask matches Some(m) ==> m <= 32,
    decreases ls.len(),
{
    if ls.len() > 0 {
        lemma_scan_mask_bound(ls.drop_last());
        let st = ifconfig_scan(ls.drop_last());
        let line = trim(ls.last());
        let ws = words(after(line, "inet "@));
        lemma_netmask_prefix_bound(st.mask, word_after(ws.drop_first(), "netmask"@));
        let ns = words(after(line, "netmask "@));
        if ns.len() > 0 {
            lemma_netmask_prefix_bound(inet_step(st, line).mask, Some(ns[0]));
        }
    }
}

/// The prefix length read from `ifconfig` is at most 32.
pub proof fn lemma_ifconfig_prefix_bound(out: Seq<char>)
    ensures
        ifconfig_info(out) matches Some((_, p)) ==> p <= 32,
{
    lemma_scan_mask_bound(lines(out));
}


// ---------------------------------------------------------------------------
// Laws on traffic totals, client rows, leases and the bridge search
// ---------------------------------------------------------------------------

/// The bytes-in count that one nettop line gives to `ip` (0 when the line
/// names another client or none).
pub open spec fn line_in_for(line: Seq<char>, gateway: Seq<char>, prefix: u8, ip: Seq<char>) -> nat {
    match nettop_entry(line, gateway, prefix) {
        Some(e) => if e.0 == ip {
            e.1
        } else {
            0
        },
        None => 0,
    }
}

/// The bytes-out count that one nettop line gives to `ip`.
pub open spec fn line_out_for(line: Seq<char>, gateway: Seq<char>, prefix: u8, ip: Seq<char>) -> nat {
    match nettop_entry(line, gateway, prefix) {
        Some(e) => if e.0 == ip {
            e.2
        } else {
            0
        },
        None => 0,
    }
}

/// The sum of the bytes-in column over the lines that name `ip`.
pub open spec fn sum_in_for(ls: Seq<Seq<char>>, gateway: Seq<char>, prefix: u8, ip: Seq<char>) -> nat
    decreases ls.len(),
{
    if ls.len() == 0 {
        0
    } else {
        line_in_for(ls[0], gateway, prefix, ip) + sum_in_for(ls.drop_first(), gateway, prefix, ip)
    }
}

/// The sum of the bytes-out column over the lines that name `ip`.
pub open spec fn sum_out_for(ls: Seq<Seq<char>>, gateway: Seq<char>, prefix: u8, ip: Seq<char>) -> nat
    decreases ls.len(),
{
    if ls.len() == 0 {
        0
    } else {
        line_out_for(ls[0], gateway, prefix, ip) + sum_out_for(ls.drop_first(), gateway, prefix, ip)
    }
}

/// The nettop line names `ip` as the client end of its connection.
pub open spec fn line_names(line: Seq<char>, gateway: Seq<char>, prefix: u8, ip: Seq<char>) -> bool {
    nettop_entry(line, gateway, prefix) matches Some(e) && e.0 == ip
}

/// Some line names `ip` as the client end of a connection.
pub open spec fn names_client(ls: Seq<Seq<char>>, gateway: Seq<char>, prefix: u8, ip: Seq<char>) -> bool {
    exists|i: int| 0 <= i < ls.len() && #[trigger] line_names(ls[i], gateway, prefix, ip)
}

proof fn lemma_sums_push(ls: Seq<Seq<char>>, l: Seq<char>, gateway: Seq<char>, prefix: u8, ip: Seq<char>)
    ensures
        sum_in_for(ls.push(l), gateway, prefix, ip) == sum_in_for(ls, gateway, prefix, ip) + line_in_for(l, gateway, prefix, ip),
        sum_out_for(ls.push(l), gateway, prefix, ip) == sum_out_for(ls, gateway, prefix, ip) + line_out_for(l, gateway, prefix, ip),
    decreases ls.len(),
{
    if ls.len() == 0 {
        assert(ls.push(l).drop_first() =~= Seq::<Seq<char>>::empty());
        assert(ls.push(l)[0] == l);
        assert(sum_in_for(ls.push(l).drop_first(), gateway, prefix, ip) == 0);
        assert(sum_out_for(ls.push(l).drop_first(), gateway, prefix, ip) == 0);
    } else {
        lemma_sums_push(ls.drop_first(), l, gateway, prefix, ip);
        assert(ls.push(l).drop_first() =~= ls.drop_first().push(l));
        assert(ls.push(l)[0] == ls[0]);
    }
}

/// Traffic totals are sums: a client appears in the totals exactly when some
/// line names it, and its bytes in and bytes out are the sums of the two
/// columns over all the lines that name it (a count that is not a number
/// counts 0).
pub proof fn lemma_nettop_sums(ls: Seq<Seq<char>>, gateway: Seq<char>, prefix: u8, ip: Seq<char>)
    ensures
        nettop_totals(ls, gateway, prefix).contains_key(ip) <==> names_client(ls, gateway, prefix, ip),
        nettop_totals(ls, gateway, prefix).contains_key(ip) ==> nettop_totals(ls, gateway, prefix)[ip] == (
            sum_in_for(ls, gateway, prefix, ip),
            sum_out_for(ls, gateway, prefix, ip),
        ),
        !nettop_totals(ls, gateway, prefix).contains_key(ip) ==> sum_in_for(ls, gateway, prefix, ip) == 0
            && sum_out_for(ls, gateway, prefix, ip) == 0,
    decreases ls.len(),
{
    if ls.len() == 0 {
    } else {
        let d = ls.drop_last();
        let l = ls.last();
        lemma_nettop_sums(d, gateway, prefix, ip);
        lemma_sums_push(d, l, gateway, prefix, ip);
        assert(d.push(l) =~= ls);
        if names_client(d, gateway, prefix, ip) {
            let i = choose|i: int| 0 <= i < d.len() && #[trigger] line_names(d[i], gateway, prefix, ip);
            assert(ls[i] == d[i]);
            assert(names_client(ls, gateway, prefix, ip));
        }
        if line_names(l, gateway, prefix, ip) {
            assert(ls[ls.len() - 1] == l);
            assert(names_client(ls, gateway, prefix, ip));
        }
        if names_client(ls, gateway, prefix, ip) {
            let i = choose|i: int| 0 <= i < ls.len() && #[trigger] line_names(ls[i], gateway, prefix, ip);
            if i < ls.len() - 1 {
                assert(d[i] == ls[i]);
                assert(names_client(d, gateway, prefix, ip));
            }
        }
    }
}

/// The traffic totals of a whole nettop output, as sums per client over
/// the lines after the header.
pub proof fn lemma_bandwidth_sums(out: Seq<char>, gateway: Seq<char>, prefix: u8, ip: Seq<char>)
    ensures
        bandwidth_of(out, gateway, prefix).contains_key(ip) <==> names_client(after_header(lines(out)), gateway, prefix, ip),
        bandwidth_of(out, gateway, prefix).contains_key(ip) ==> bandwidth_of(out, gateway, prefix)[ip] == (
            sum_in_for(after_header(lines(out)), gateway, prefix, ip),
            sum_out_for(after_header(lines(out)), gateway, prefix, ip),
        ),
{
    lemma_nettop_sums(after_header(lines(out)), gateway, prefix, ip);
}


proof fn lemma_lease_clients_last(recs: Seq<LeaseView>, gateway: Seq<char>, prefix: u8, i: int)
    requires
        0 <= i < recs.len(),
        in_subnet_spec(recs[i].ip, gateway, prefix),
        recs[i].ip != gateway,
        forall|j: int| i < j < recs.len() ==> (#[trigger] recs[j]).ip != recs[i].ip,
    ensures
        lease_clients(recs, gateway, prefix).contains_key(recs[i].ip),
        lease_clients(recs, gateway, prefix)[recs[i].ip].mac == recs[i].mac,
        lease_clients(recs, gateway, prefix)[recs[i].ip].name == recs[i].name,
    decreases recs.len(),
{
    let d = recs.drop_last();
    if i < recs.len() - 1 {
        assert forall|j: int| i < j < d.len() implies (#[trigger] d[j]).ip != d[i].ip by {
            assert(d[j] == recs[j]);
        }
        assert(d[i] == recs[i]);
        lemma_lease_clients_last(d, gateway, prefix, i);
        assert(recs.last() == recs[recs.len() - 1]);
    }
}

/// A client known from the lease file keeps what its lease says: for a lease
/// record on the shared subnet (not the gateway itself), the latest one for
/// its address, the client table has a row for the address that carries the
/// record's host name, whether the client is connected now or not, and the
/// record's MAC address when the record has one.
pub proof fn lemma_lease_rows_keep_lease(
    gateway: Seq<char>,
    prefix: u8,
    blocked: Seq<Seq<char>>,
    leases: Option<Seq<char>>,
    arp: Seq<char>,
    nettop: Seq<char>,
    i: int,
)
    requires
        0 <= i < lease_records(leases).len(),
        in_subnet_spec(lease_records(leases)[i].ip, gateway, prefix),
        lease_records(leases)[i].ip != gateway,
        forall|j: int|
            i < j < lease_records(leases).len() ==> (#[trigger] lease_records(leases)[j]).ip
                != lease_records(leases)[i].ip,
    ensures
        client_table(gateway, prefix, blocked, leases, arp, nettop).contains_key(lease_records(leases)[i].ip),
        client_table(gateway, prefix, blocked, leases, arp, nettop)[lease_records(leases)[i].ip].name
            == lease_records(leases)[i].name,
        lease_records(leases)[i].mac.len() > 0 ==> client_table(
            gateway,
            prefix,
            blocked,
            leases,
            arp,
            nettop,
        )[lease_records(leases)[i].ip].mac == lease_records(leases)[i].mac,
{
    lemma_lease_clients_last(lease_records(leases), gateway, prefix, i);
}


proof fn lemma_lease_step_prefix(st: LeaseScan, r: Seq<LeaseView>, raw: Seq<char>)
    ensures
        lease_step(LeaseScan { records: r + st.records, ..st }, raw) == (LeaseScan {
            records: r + lease_step(st, raw).records,
            ..lease_step(st, raw)
        }),
{
    let line = trim(raw);
    if line != "{"@ && line == "}"@ && st.ip.len() > 0 {
        assert((r + st.records).push(LeaseView { ip: st.ip, mac: st.mac, name: st.name }) =~= r
            + st.records.push(LeaseView { ip: st.ip, mac: st.mac, name: st.name }));
    }
}

proof fn lemma_lease_scan_concat(a: Seq<Seq<char>>, b: Seq<Seq<char>>)
    requires
        b.len() > 0,
        trim(b[0]) == "{"@,
    ensures
        lease_scan(a + b) == (LeaseScan {
            records: lease_scan(a).records + lease_scan(b).records,
            ..lease_scan(b)
        }),
    decreases b.len(),
{
    if b.len() == 1 {
        assert((a + b).drop_last() =~= a);
        assert((a + b).last() == b[0]);
        assert(b.drop_last() =~= Seq::<Seq<char>>::empty());
        assert(b.last() == b[0]);
        assert(lease_scan(b.drop_last()).records =~= Seq::<LeaseView>::empty());
        assert(lease_scan(a + b) == lease_step(lease_scan(a), b[0]));
        assert(lease_scan(b) == lease_step(lease_scan(b.drop_last()), b[0]));
        assert(lease_scan(b).records =~= Seq::<LeaseView>::empty());
        assert(lease_scan(a).records + lease_scan(b).records =~= lease_scan(a).records);
    } else {
        let bd = b.drop_last();
        assert(bd[0] == b[0]);
        lemma_lease_scan_concat(a, bd);
        assert((a + b).drop_last() =~= a + bd);
        assert((a + b).last() == b.last());
        lemma_lease_step_prefix(lease_scan(bd), lease_scan(a).records, b.last());
        assert(lease_scan(a + b) == lease_step(lease_scan(a + bd), b.last()));
        assert(lease_scan(b) == lease_step(lease_scan(bd), b.last()));
    }
}

/// Lease records do not depend on what comes before their `{`: a lease file
/// followed by another that starts with a `{` line holds the records of the
/// first and then those of the second. So no field of one record (a host
/// name, a MAC) carries over into the next; a record without a `name=` line
/// has an empty name whatever came before it.
pub proof fn lemma_leases_concat(first: Seq<char>, second: Seq<char>)
    requires
        first.len() == 0 || first.last() == '\n',
        lines(second).len() > 0,
        trim(lines(second)[0]) == "{"@,
    ensures
        leases_of(first + second) == leases_of(first) + leases_of(second),
{
    lemma_lines_append(first, second, 0);
    lemma_lease_scan_concat(lines(first), lines(second));
}


/// The bridge search always ends: it tries bridge100, then lists the
/// interfaces, then tries each listed `bridge*` interface once, in order,
/// and when the last one has no address it stops with `NotFound`.
/// Each step that goes on moves to a later state (the next candidate, never
/// an earlier one or the same again), so from the start the search ends
/// within 2 + (number of listed `bridge*` names) steps.
pub proof fn lemma_bridge_search_ends(s: SearchView, output: Seq<char>)
    requires
        s matches SearchView::Candidate(ns, k) ==> k < ns.len(),
    ensures
        s is Primary ==> bridge_step(s, output).0 is None || bridge_step(s, output).0 == Some(
            SearchView::Listing,
        ),
        s is Listing ==> bridge_step(s, output).0 is None || bridge_step(s, output).0 == Some(
            SearchView::Candidate(bridge_names(output), 0),
        ),
        s is Listing && bridge_names(output).len() == 0 ==> bridge_step(s, output)
            == (None::<SearchView>, ActionView::NotFound),
        s matches SearchView::Candidate(ns, k) ==> match bridge_step(s, output).0 {
            Some(SearchView::Candidate(ns2, k2)) => ns2 == ns && k2 == k + 1 && k2 < ns.len(),
            Some(_) => false,
            None => true,
        },
        s matches SearchView::Candidate(ns, k) && k + 1 == ns.len() && ifconfig_info(output) is None
            ==> bridge_step(s, output) == (None::<SearchView>, ActionView::NotFound),
{
}

} // verus!
