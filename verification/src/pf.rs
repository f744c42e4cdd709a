//! Packet Filter (PF) block list: the rules file and the `pfctl` reload.
//!
//! Clients are blocked by loading rules into a dynamic PF anchor named
//! `arpmac/block`, so that `/etc/pf.conf` is never edited.
//!
//! ## Rule file format (`~/.config/arpmac/blocks.pf`)
//!
//! ```text
//! block drop quick from 192.168.2.5 to any
//! block drop quick from any to 192.168.2.5
//! ```
//!
//! Each blocked IP gets two rules (egress + ingress). The file is read back
//! by its outbound rules only.
//!
//! ## Reload command
//!
//! ```text
//! sudo -S pfctl -a arpmac/block -f ~/.config/arpmac/blocks.pf
//! ```
//!
//! When the block list is empty, the anchor is flushed instead:
//!
//! ```text
//! sudo -S pfctl -a arpmac/block -F all
//! ```
use vstd::prelude::*;

use crate::net::string_views;
use crate::text::{
    after, chars_of, chars_of_string, eq_chars, is_word, is_ws, lemma_first_word, lemma_lines_append,
    lemma_words_are_words,
    lemma_one_line, lemma_trim_exact, lines, split_lines, split_words, starts_with, string_of,
    strip_prefix_chars, trim, trim_chars, views, words,
};

verus! {

// ---------------------------------------------------------------------------
// Paths
// ---------------------------------------------------------------------------

/// `PathBuf::join` of a relative component: `part` appended after a `/`,
/// unless `base` is empty or already ends with `/`.
pub open spec fn path_join(base: Seq<char>, part: Seq<char>) -> Seq<char> {
    if base.len() == 0 || base.last() == '/' {
        base + part
    } else {
        base + seq!['/'] + part
    }
}

/// `~/.config/arpmac` for the given home directory, `/tmp/arpmac` without one.
pub open spec fn config_dir_spec(home: Option<Seq<char>>) -> Seq<char> {
    match home {
        Some(h) => path_join(path_join(h, ".config"@), "arpmac"@),
        None => "/tmp/arpmac"@,
    }
}

/// The rules file inside the configuration directory.
pub open spec fn blocks_path_spec(home: Option<Seq<char>>) -> Seq<char> {
    path_join(config_dir_spec(home), "blocks.pf"@)
}

fn join_path(base: &String, part: &str) -> (r: String)
    ensures
        r@ == path_join(base@, part@),
{
    let b = chars_of_string(base);
    let mut r = base.clone();
    if b.len() == 0 || b[b.len() - 1] == '/' {
        r.append(part);
    } else {
        r.append("/");
        r.append(part);
        proof {
            reveal_strlit("/");
        }
        assert(r@ =~= base@ + seq!['/'] + part@);
    }
    r
}

/// Return `~/.config/arpmac` (`home` is `$HOME`), falling back to `/tmp/arpmac`.
pub fn config_dir(home: Option<&str>) -> (r: String)
    ensures
        r@ == config_dir_spec(match home {
            Some(h) => Some(h@),
            None => None,
        }),
{
    match home {
        Some(h) => {
            let c = join_path(&String::from_str(h), ".config");
            join_path(&c, "arpmac")
        },
        None => String::from_str("/tmp/arpmac"),
    }
}

/// Absolute path to the generated PF rules file (`home` is `$HOME`).
pub fn blocks_path(home: Option<&str>) -> (r: String)
    ensures
        r@ == blocks_path_spec(match home {
            Some(h) => Some(h@),
            None => None,
        }),
{
    join_path(&config_dir(home), "blocks.pf")
}

// ---------------------------------------------------------------------------
// The rules file
// ---------------------------------------------------------------------------

/// The blocked IP that one line of the rules file names: a (trimmed) line
/// `block drop quick from <ip> ...` gives its first word after the prefix,
/// unless that word is `any` (the reverse rule).
pub open spec fn rule_ip(raw: Seq<char>) -> Option<Seq<char>> {
    let line = trim(raw);
    if starts_with(line, "block drop quick from "@) {
        let ws = words(after(line, "block drop quick from "@));
        if ws.len() == 0 || ws[0] == "any"@ {
            None
        } else {
            Some(ws[0])
        }
    } else {
        None
    }
}

/// The blocked IPs that the given lines name, in order.
pub open spec fn blocked_in_lines(ls: Seq<Seq<char>>) -> Seq<Seq<char>>
    decreases ls.len(),
{
    if ls.len() == 0 {
        Seq::empty()
    } else {
        let prev = blocked_in_lines(ls.drop_last());
        match rule_ip(ls.last()) {
            Some(ip) => prev.push(ip),
            None => prev,
        }
    }
}

/// The blocked IPs of a rules file, in order.
pub open spec fn blocked_in(text: Seq<char>) -> Seq<Seq<char>> {
    blocked_in_lines(lines(text))
}

/// The outbound rule for an IP: `block drop quick from <ip> to any`.
pub open spec fn rule_out(ip: Seq<char>) -> Seq<char> {
    "block drop quick from "@ + ip + " to any"@
}

/// The inbound rule for an IP: `block drop quick from any to <ip>`.
pub open spec fn rule_in(ip: Seq<char>) -> Seq<char> {
    "block drop quick from "@ + "any to "@ + ip
}

/// The two rules for one IP, each ended by a newline.
pub open spec fn rule_pair(ip: Seq<char>) -> Seq<char> {
    rule_out(ip).push('\n') + rule_in(ip).push('\n')
}

/// The rules file for a block list.
pub open spec fn rules_text(ips: Seq<Seq<char>>) -> Seq<char>
    decreases ips.len(),
{
    if ips.len() == 0 {
        Seq::empty()
    } else {
        rules_text(ips.drop_last()) + rule_pair(ips.last())
    }
}

/// Read blocked IPv4 addresses from the text of the rules file.
///
/// Parses only outbound rules (`block drop quick from <ip> to any`),
/// ignoring reverse rules that start with `any`.
pub fn parse_blocked(text: &str) -> (r: Vec<String>)
    ensures
        string_views(r@) == blocked_in(text@),
{
    let ls = split_lines(&chars_of(text));
    let prefix = chars_of("block drop quick from ");
    let any = chars_of("any");
    let mut r: Vec<String> = Vec::new();
    let mut i: usize = 0;
    assert(string_views(r@) =~= blocked_in_lines(views(ls@).take(0)));
    while i < ls.len()
        invariant
            i <= ls.len(),
            views(ls@) == lines(text@),
            prefix@ == "block drop quick from "@,
            any@ == "any"@,
            string_views(r@) == blocked_in_lines(views(ls@).take(i as int)),
        decreases ls.len() - i,
    {
        proof {
            assert(views(ls@).take(i + 1).drop_last() =~= views(ls@).take(i as int));
            assert(views(ls@)[i as int] == ls@[i as int]@);
        }
        let line = trim_chars(&ls[i]);
        if let Some(rest) = strip_prefix_chars(&line, &prefix) {
            let ws = split_words(&rest);
            if ws.len() > 0 {
                assert(views(ws@)[0] == ws@[0]@);
                if !eq_chars(&ws[0], &any) {
                    let ghost before = r@;
                    r.push(string_of(&ws[0]));
                    assert(string_views(r@) =~= string_views(before).push(ws@[0]@));
                }
            }
        }
        i = i + 1;
    }
    assert(views(ls@).take(ls.len() as int) =~= views(ls@));
    r
}

/// The text of the rules file for `ips`: for each IP, in order,
/// `block drop quick from <ip> to any` and `block drop quick from any to <ip>`.
pub fn render_rules(ips: &Vec<String>) -> (r: String)
    ensures
        r@ == rules_text(string_views(ips@)),
{
    let mut rules = String::new();
    let mut i: usize = 0;
    assert(string_views(ips@).take(0) =~= Seq::<Seq<char>>::empty());
    while i < ips.len()
        invariant
            i <= ips.len(),
            rules@ == rules_text(string_views(ips@).take(i as int)),
        decreases ips.len() - i,
    {
        let ghost before = rules@;
        rules.append("block drop quick from ");
        rules.append(ips[i].as_str());
        rules.append(" to any");
        rules.append("\n");
        rules.append("block drop quick from ");
        rules.append("any to ");
        rules.append(ips[i].as_str());
        rules.append("\n");
        proof {
            reveal_strlit("\n");
            let sv = string_views(ips@);
            assert(sv.take(i + 1).drop_last() =~= sv.take(i as int));
            assert(sv.take(i + 1).last() == ips@[i as int]@);
            assert(rules@ =~= before + rule_pair(ips@[i as int]@));
        }
        i = i + 1;
    }
    assert(string_views(ips@).take(ips.len() as int) =~= string_views(ips@));
    rules
}

/// An IP that the rules file can carry and give back: one non-empty word,
/// not `any`.
pub open spec fn rule_word(ip: Seq<char>) -> bool {
    &&& is_word(ip)
    &&& ip != "any"@
}

proof fn lemma_rule_lines(ip: Seq<char>)
    requires
        is_word(ip),
    ensures
        lines(rule_pair(ip)) == seq![rule_out(ip), rule_in(ip)],
{
    reveal_strlit("block drop quick from ");
    reveal_strlit(" to any");
    reveal_strlit("any to ");
    let o = rule_out(ip);
    let n = rule_in(ip);
    assert forall|k: int| 0 <= k < o.len() implies o[k] != '\n' by {
        if 22 <= k < 22 + ip.len() {
            assert(o[k] == ip[k - 22]);
            assert(!is_ws(ip[k - 22]));
        }
    }
    assert forall|k: int| 0 <= k < n.len() implies n[k] != '\n' by {
        if 29 <= k {
            assert(n[k] == ip[k - 29]);
            assert(!is_ws(ip[k - 29]));
        }
    }
    assert(n.last() == ip.last());
    assert(!is_ws(ip[ip.len() - 1]));
    lemma_one_line(o);
    lemma_one_line(n);
    lemma_lines_append(o.push('\n'), n.push('\n'), 0);
    assert(lines(rule_pair(ip)) =~= seq![o] + seq![n]);
}

proof fn lemma_rule_ips(ip: Seq<char>)
    requires
        rule_word(ip),
    ensures
        rule_ip(rule_out(ip)) == Some(ip),
        rule_ip(rule_in(ip)) is None,
{
    reveal_strlit("block drop quick from ");
    reveal_strlit(" to any");
    reveal_strlit("any to ");
    reveal_strlit("any");
    reveal_strlit(" to ");
    let p = "block drop quick from "@;
    let o = rule_out(ip);
    let n = rule_in(ip);
    assert(!is_ws(ip[ip.len() - 1]));
    lemma_trim_exact(o);
    lemma_trim_exact(n);
    assert(o.subrange(0, p.len() as int) =~= p);
    assert(n.subrange(0, p.len() as int) =~= p);
    assert(after(o, p) =~= ip + " to any"@);
    lemma_first_word(ip, " to any"@);
    let rest = " to "@ + ip;
    assert(after(n, p) =~= "any"@ + rest);
    assert forall|k: int| 0 <= k < "any"@.len() implies !is_ws(#[trigger] "any"@[k]) by {}
    lemma_first_word("any"@, rest);
}

proof fn lemma_rule_any()
    ensures
        rule_ip(rule_out("any"@)) is None,
        rule_ip(rule_in("any"@)) is None,
{
    reveal_strlit("block drop quick from ");
    reveal_strlit(" to any");
    reveal_strlit("any to ");
    reveal_strlit("any");
    let p = "block drop quick from "@;
    let o = rule_out("any"@);
    let n = rule_in("any"@);
    assert(!is_ws(o[o.len() - 1]));
    assert(!is_ws(n[n.len() - 1]));
    lemma_trim_exact(o);
    lemma_trim_exact(n);
    assert(o.subrange(0, p.len() as int) =~= p);
    assert(n.subrange(0, p.len() as int) =~= p);
    assert(after(o, p) =~= "any"@ + " to any"@);
    assert(after(n, p) =~= "any"@ + " to any"@);
    assert forall|k: int| 0 <= k < "any"@.len() implies !is_ws(#[trigger] "any"@[k]) by {}
    lemma_first_word("any"@, " to any"@);
}

/// Every IP read from a rules file is one word other than `any`.
pub proof fn lemma_blocked_are_rule_words(ls: Seq<Seq<char>>)
    ensures
        forall|i: int| 0 <= i < blocked_in_lines(ls).len() ==> rule_word(#[trigger] blocked_in_lines(ls)[i]),
    decreases ls.len(),
{
    if ls.len() > 0 {
        lemma_blocked_are_rule_words(ls.drop_last());
        let prev = blocked_in_lines(ls.drop_last());
        let line = trim(ls.last());
        if let Some(ip) = rule_ip(ls.last()) {
            let t = after(line, "block drop quick from "@);
            lemma_words_are_words(t, 0);
            assert(ip == words(t)[0]);
            assert(rule_word(ip));
            assert forall|i: int| 0 <= i < blocked_in_lines(ls).len() implies rule_word(
                #[trigger] blocked_in_lines(ls)[i],
            ) by {
                if i < prev.len() {
                    assert(blocked_in_lines(ls)[i] == prev[i]);
                }
            }
        }
    }
}

proof fn lemma_blocked_in_append(a: Seq<Seq<char>>, b: Seq<Seq<char>>)
    ensures
        blocked_in_lines(a + b) == blocked_in_lines(a) + blocked_in_lines(b),
    decreases b.len(),
{
    if b.len() == 0 {
        assert(a + b =~= a);
        assert(blocked_in_lines(a) + blocked_in_lines(b) =~= blocked_in_lines(a));
    } else {
        assert((a + b).drop_last() =~= a + b.drop_last());
        lemma_blocked_in_append(a, b.drop_last());
        match rule_ip(b.last()) {
            Some(ip) => {
                assert(blocked_in_lines(a + b) =~= blocked_in_lines(a) + blocked_in_lines(b));
            },
            None => {},
        }
    }
}

proof fn lemma_rules_text_ends(ips: Seq<Seq<char>>)
    ensures
        rules_text(ips).len() == 0 || rules_text(ips).last() == '\n',
{
    if ips.len() > 0 {
        let u = rule_pair(ips.last());
        assert((rules_text(ips.drop_last()) + u).last() == u.last());
    }
}

/// Writing a block list to the rules file and reading the file back gives
/// the same list, in order (for IPs that are single words other than `any`).
pub proof fn lemma_rules_round_trip(ips: Seq<Seq<char>>)
    requires
        forall|i: int| 0 <= i < ips.len() ==> rule_word(#[trigger] ips[i]),
    ensures
        blocked_in(rules_text(ips)) == ips,
    decreases ips.len(),
{
    if ips.len() == 0 {
        assert(lines(Seq::<char>::empty()) =~= Seq::<Seq<char>>::empty());
        assert(blocked_in_lines(Seq::<Seq<char>>::empty()) =~= ips);
    } else {
        let dl = ips.drop_last();
        let ip = ips.last();
        assert(rule_word(ips[ips.len() - 1]));
        lemma_rules_round_trip(dl);
        lemma_rules_text_ends(dl);
        lemma_lines_append(rules_text(dl), rule_pair(ip), 0);
        lemma_rule_lines(ip);
        lemma_rule_ips(ip);
        lemma_blocked_in_append(lines(rules_text(dl)), seq![rule_out(ip), rule_in(ip)]);
        let two = seq![rule_out(ip), rule_in(ip)];
        assert(two.drop_last() =~= seq![rule_out(ip)]);
        assert(seq![rule_out(ip)].drop_last() =~= Seq::<Seq<char>>::empty());
        assert(seq![rule_out(ip)].last() == rule_out(ip));
        assert(blocked_in_lines(seq![rule_out(ip)].drop_last()) =~= Seq::<Seq<char>>::empty());
        assert(Seq::<Seq<char>>::empty().push(ip) =~= seq![ip]);
        assert(blocked_in_lines(seq![rule_out(ip)]) =~= seq![ip]);
        assert(two.last() == rule_in(ip));
        assert(blocked_in_lines(two) =~= seq![ip]);
        assert(blocked_in(rules_text(ips)) =~= ips);
    }
}

/// After a block of a new IP, reading the rules file back gives the old
/// list with the IP added at the end.
pub proof fn lemma_block_then_read(blocked: Seq<Seq<char>>, ip: Seq<char>)
    requires
        forall|i: int| 0 <= i < blocked.len() ==> rule_word(#[trigger] blocked[i]),
        rule_word(ip),
    ensures
        blocked_in(rules_text(blocked.push(ip))) == blocked.push(ip),
        blocked_in(rules_text(blocked.push(ip))).contains(ip),
{
    let l = blocked.push(ip);
    assert forall|i: int| 0 <= i < l.len() implies rule_word(#[trigger] l[i]) by {
        if i < blocked.len() {
            assert(l[i] == blocked[i]);
        }
    }
    lemma_rules_round_trip(l);
    assert(l[l.len() - 1] == ip);
}

/// After an unblock, reading the rules file back gives the other IPs in
/// their order, and not the unblocked one.
pub proof fn lemma_unblock_then_read(blocked: Seq<Seq<char>>, ip: Seq<char>)
    requires
        forall|i: int| 0 <= i < blocked.len() ==> rule_word(#[trigger] blocked[i]),
    ensures
        blocked_in(rules_text(blocked.filter(|x: Seq<char>| x != ip))) == blocked.filter(
            |x: Seq<char>| x != ip,
        ),
        !blocked_in(rules_text(blocked.filter(|x: Seq<char>| x != ip))).contains(ip),
{
    broadcast use vstd::seq_lib::group_filter_ensures;

    let keep = |x: Seq<char>| x != ip;
    let rest = blocked.filter(keep);
    assert forall|i: int| 0 <= i < rest.len() implies rule_word(#[trigger] rest[i]) by {
        assert(rest.contains(rest[i]));
        blocked.lemma_filter_contains_rev(keep, rest[i]);
        let j = choose|j: int| 0 <= j < blocked.len() && blocked[j] == rest[i];
        assert(rule_word(blocked[j]));
    }
    lemma_rules_round_trip(rest);
    if rest.contains(ip) {
        let i = choose|i: int| 0 <= i < rest.len() && rest[i] == ip;
        assert(keep(rest[i]));
    }
}

proof fn lemma_filter_keeps_all(l: Seq<Seq<char>>, ip: Seq<char>)
    requires
        !l.contains(ip),
    ensures
        l.filter(|x: Seq<char>| x != ip) == l,
    decreases l.len(),
{
    reveal_with_fuel(Seq::<_>::filter, 1);
    if l.len() == 0 {
        assert(l.filter(|x: Seq<char>| x != ip) =~= l);
    } else {
        assert(!l.drop_last().contains(ip)) by {
            if l.drop_last().contains(ip) {
                let i = choose|i: int| 0 <= i < l.drop_last().len() && l.drop_last()[i] == ip;
                assert(l[i] == ip);
            }
        }
        lemma_filter_keeps_all(l.drop_last(), ip);
        assert(l.last() != ip) by {
            assert(l[l.len() - 1] == l.last());
        }
        assert(l.drop_last().push(l.last()) =~= l);
    }
}

/// Unblocking an IP undoes blocking it: the list is back to what it was
/// (for an IP that was not listed before).
pub proof fn lemma_unblock_undoes_block(blocked: Seq<Seq<char>>, ip: Seq<char>)
    requires
        !blocked.contains(ip),
    ensures
        blocked.push(ip).filter(|x: Seq<char>| x != ip) == blocked,
{
    reveal_with_fuel(Seq::<_>::filter, 1);
    assert(blocked.push(ip).drop_last() =~= blocked);
    lemma_filter_keeps_all(blocked, ip);
}

/// Unblocking undoes a block, as the rules file tells it: with the block
/// list read from any rules file, blocking an IP it does not name (the file
/// is written with it added) and then unblocking that IP (the list read back,
/// the IP filtered out, the file written again) leaves a file that reads back
/// as the first list. This holds for every IP that is one word, `any`
/// included (whose rules the file never reads back as an IP).
pub proof fn lemma_unblock_undoes_block_in_file(text: Seq<char>, ip: Seq<char>)
    requires
        is_word(ip),
        !blocked_in(text).contains(ip),
    ensures
        blocked_in(
            rules_text(
                blocked_in(rules_text(blocked_in(text).push(ip))).filter(|x: Seq<char>| x != ip),
            ),
        ) == blocked_in(text),
{
    let l = blocked_in(text);
    lemma_blocked_are_rule_words(lines(text));
    if ip == "any"@ {
        let two = seq![rule_out(ip), rule_in(ip)];
        assert(l.push(ip).drop_last() =~= l);
        lemma_rules_round_trip(l);
        lemma_rules_text_ends(l);
        lemma_lines_append(rules_text(l), rule_pair(ip), 0);
        lemma_rule_lines(ip);
        lemma_rule_any();
        lemma_blocked_in_append(lines(rules_text(l)), two);
        assert(two.drop_last() =~= seq![rule_out(ip)]);
        assert(seq![rule_out(ip)].drop_last() =~= Seq::<Seq<char>>::empty());
        assert(seq![rule_out(ip)].last() == rule_out(ip));
        assert(blocked_in_lines(seq![rule_out(ip)].drop_last()) =~= Seq::<Seq<char>>::empty());
        assert(blocked_in_lines(seq![rule_out(ip)]) =~= Seq::<Seq<char>>::empty());
        assert(two.last() == rule_in(ip));
        assert(blocked_in_lines(two) =~= Seq::<Seq<char>>::empty());
        assert(blocked_in(rules_text(l.push(ip))) =~= l);
        lemma_filter_keeps_all(l, ip);
    } else {
        lemma_block_then_read(l, ip);
        lemma_unblock_undoes_block(l, ip);
        lemma_rules_round_trip(l);
    }
}

// ---------------------------------------------------------------------------
// Block and unblock
// ---------------------------------------------------------------------------

/// A change to the block list: the list afterwards, and the rules text to
/// write to the rules file (`None` when the file stays as it is).
pub struct RuleUpdate {
    pub blocked: Vec<String>,
    pub rules: Option<String>,
}

fn copy_strings(v: &Vec<String>) -> (r: Vec<String>)
    ensures
        string_views(r@) == string_views(v@),
{
    let mut r: Vec<String> = Vec::new();
    let mut i: usize = 0;
    while i < v.len()
        invariant
            i <= v.len(),
            string_views(r@) == string_views(v@).take(i as int),
        decreases v.len() - i,
    {
        let ghost before = r@;
        r.push(v[i].clone());
        assert(string_views(r@) =~= string_views(before).push(v@[i as int]@));
        assert(string_views(r@) =~= string_views(v@).take(i + 1));
        i = i + 1;
    }
    assert(string_views(v@).take(v.len() as int) =~= string_views(v@));
    r
}

fn contains_string(v: &Vec<String>, s: &str) -> (r: bool)
    ensures
        r == string_views(v@).contains(s@),
{
    let t = chars_of(s);
    let mut i: usize = 0;
    while i < v.len()
        invariant
            i <= v.len(),
            t@ == s@,
            forall|k: int| 0 <= k < i ==> string_views(v@)[k] != s@,
        decreases v.len() - i,
    {
        assert(string_views(v@)[i as int] == v@[i as int]@);
        if eq_chars(&chars_of_string(&v[i]), &t) {
            return true;
        }
        i = i + 1;
    }
    false
}

/// Add `ip` to the block list `blocked` (as read from the rules file).
///
/// When `ip` is already listed nothing changes and nothing is written (the
/// anchor is only reloaded); otherwise it goes at the end and the whole
/// rules file is rewritten.
pub fn block(blocked: &Vec<String>, ip: &str) -> (r: RuleUpdate)
    ensures
        string_views(blocked@).contains(ip@) ==> string_views(r.blocked@) == string_views(
            blocked@,
        ) && r.rules is None,
        !string_views(blocked@).contains(ip@) ==> string_views(r.blocked@) == string_views(
            blocked@,
        ).push(ip@) && r.rules is Some,
        r.rules matches Some(t) ==> t@ == rules_text(string_views(r.blocked@)),
{
    if contains_string(blocked, ip) {
        return RuleUpdate { blocked: copy_strings(blocked), rules: None };
    }
    let mut ips = copy_strings(blocked);
    let ghost before = ips@;
    ips.push(String::from_str(ip));
    assert(string_views(ips@) =~= string_views(before).push(ip@));
    let rules = render_rules(&ips);
    RuleUpdate { blocked: ips, rules: Some(rules) }
}

/// Remove `ip` from the block list `blocked` (every occurrence), keeping the
/// others in order; the rules file is always rewritten.
pub fn unblock(blocked: &Vec<String>, ip: &str) -> (r: RuleUpdate)
    ensures
        string_views(r.blocked@) == string_views(blocked@).filter(|x: Seq<char>| x != ip@),
        r.rules matches Some(t) && t@ == rules_text(string_views(r.blocked@)),
{
    let t = chars_of(ip);
    let mut ips: Vec<String> = Vec::new();
    let mut i: usize = 0;
    let ghost sv = string_views(blocked@);
    let ghost keep = |x: Seq<char>| x != ip@;
    assert(sv.take(0).filter(keep) =~= Seq::<Seq<char>>::empty());
    assert(string_views(ips@) =~= Seq::<Seq<char>>::empty());
    while i < blocked.len()
        invariant
            i <= blocked.len(),
            t@ == ip@,
            sv == string_views(blocked@),
            keep == (|x: Seq<char>| x != ip@),
            string_views(ips@) == sv.take(i as int).filter(keep),
        decreases blocked.len() - i,
    {
        proof {
            assert(sv.take(i + 1).drop_last() =~= sv.take(i as int));
            assert(sv[i as int] == blocked@[i as int]@);
            reveal_with_fuel(Seq::<_>::filter, 1);
        }
        if !eq_chars(&chars_of_string(&blocked[i]), &t) {
            let ghost before = ips@;
            ips.push(blocked[i].clone());
            assert(string_views(ips@) =~= string_views(before).push(sv[i as int]));
        }
        i = i + 1;
    }
    assert(sv.take(blocked.len() as int) =~= sv);
    let rules = render_rules(&ips);
    RuleUpdate { blocked: ips, rules: Some(rules) }
}

// ---------------------------------------------------------------------------
// Reload
// ---------------------------------------------------------------------------

/// The arguments after `sudo -S` that apply the block list read from the
/// rules file at `path`: flush the anchor when the list is empty, else load
/// the file into it.
pub open spec fn reload_args(blocked: Seq<Seq<char>>, path: Seq<char>) -> Seq<Seq<char>> {
    if blocked.len() == 0 {
        seq!["pfctl"@, "-a"@, "arpmac/block"@, "-F"@, "all"@]
    } else {
        seq!["pfctl"@, "-a"@, "arpmac/block"@, "-f"@, path]
    }
}

/// The `pfctl` command (run through `sudo -S`) that applies the block list
/// read back from the rules file at `path`.
pub fn reload_command(blocked: &Vec<String>, path: &str) -> (r: Vec<String>)
    ensures
        string_views(r@) == reload_args(string_views(blocked@), path@),
{
    let mut r: Vec<String> = Vec::new();
    r.push(String::from_str("pfctl"));
    r.push(String::from_str("-a"));
    r.push(String::from_str("arpmac/block"));
    if blocked.len() == 0 {
        r.push(String::from_str("-F"));
        r.push(String::from_str("all"));
    } else {
        r.push(String::from_str("-f"));
        r.push(String::from_str(path));
    }
    assert(string_views(r@) =~= reload_args(string_views(blocked@), path@));
    r
}

/// How a reload ended: done when `pfctl` (run through `sudo`) succeeded,
/// flush or load alike; otherwise its error output is the error, so a
/// rejected password is never taken for a successful authentication.
pub fn reload_outcome(success: bool, stderr: &str) -> (r: Result<(), String>)
    ensures
        success <==> r is Ok,
        r matches Err(e) ==> e@ == stderr@,
{
    if success {
        Ok(())
    } else {
        Err(String::from_str(stderr))
    }
}

} // verus!
