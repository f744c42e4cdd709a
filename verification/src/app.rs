//! Application state and its transitions.
//!
//! [`App`] is the state of one session: the sharing status, the client
//! list, the selection, the status line, the modal overlay, and the session
//! caches (administrator password, MAC vendors). Every transition here is a
//! function from the state and an event to the next state and an [`Effect`]:
//! the outside work (discovery, vendor lookup, `pfctl` through `sudo`) is
//! left to the caller, who reports back with [`App::poll_background`] and
//! [`App::pf_done`].
//!
//! ```text
//!   key ──► handle_key ──► Effect::StartRefresh ──► discovery ──► RefreshMsg ─┐
//!                     ├──► Effect::LookupVendor ──► lookup    ──► VendorMsg  ─┼─► poll_background
//!                     └──► Effect::RunPf        ──► pfctl     ──► pf_done
//! ```
use vstd::prelude::*;

use crate::assoc::pairs_map;
use crate::net::{Client, ClientView, Sharing, SharingView, client_views};
use crate::text::{
    chars_of, chars_of_string, eq_chars, slice, starts_with, starts_with_chars, string_of,
    push_char,
};

verus! {

// ---------------------------------------------------------------------------
// Types
// ---------------------------------------------------------------------------

/// Result of a background client-discovery pass.
pub enum RefreshMsg {
    /// Discovery finished.
    Done {
        /// Current Internet Sharing status and subnet.
        sharing: Sharing,
        /// All known clients (online + historical), sorted with online first.
        clients: Vec<Client>,
    },
}

/// Result of a background MAC vendor lookup.
pub enum VendorMsg {
    /// Lookup finished (success or failure).
    Done {
        /// MAC address that was queried.
        mac: String,
        /// Vendor name, or error string.
        result: Result<String, String>,
    },
}

/// Privileged action waiting for the administrator password.
pub enum PendingAction {
    /// Add PF block rules for this IP.
    Block(String),
    /// Remove PF block rules for this IP.
    Unblock(String),
}

/// Overlay dialog shown on top of the main table.
pub enum Modal {
    /// No modal — main view receives keys.
    Closed,
    /// Wi-Fi password / kick-all instructions.
    Help,
    /// MAC vendor lookup result.
    Vendor {
        /// Queried MAC address.
        mac: String,
        /// Vendor name or error message.
        text: String,
    },
    /// Administrator password prompt for `sudo` / `pfctl`.
    Password {
        /// Characters typed so far (masked in UI).
        input: String,
        /// Block or unblock to perform after Enter.
        action: PendingAction,
    },
}

/// The key of a key press.
pub enum KeyCode {
    Char(char),
    Esc,
    Enter,
    Backspace,
    Up,
    Down,
    /// Any other key.
    Other,
}

/// A key press: the key and whether Control was held.
pub struct Key {
    pub code: KeyCode,
    pub ctrl: bool,
}

/// Outside work that a transition asks for.
pub enum Effect {
    /// Nothing to do.
    Nothing,
    /// The user asked to quit.
    Quit,
    /// Start a client-discovery pass; report it with [`App::poll_background`].
    StartRefresh,
    /// Look up the vendor of this MAC; report it with [`App::poll_background`].
    LookupVendor(String),
    /// Run the block or unblock with this administrator password; report the
    /// outcome with [`App::pf_done`].
    RunPf(PendingAction, String),
}

/// A privileged run in progress.
struct PfRun {
    action: PendingAction,
    password: String,
    from_modal: bool,
}

/// Full application state for one session.
pub struct App {
    /// Internet Sharing detection result (updated each refresh).
    pub sharing: Sharing,
    /// Complete client list including historical DHCP entries.
    pub clients: Vec<Client>,
    /// Index into [`Self::visible_clients`], not raw `clients`.
    pub selected: usize,
    /// Short status line shown in the header (errors, confirmations).
    pub status: String,
    /// Active modal overlay, if any.
    pub modal: Modal,
    /// `true` while a refresh is in flight.
    pub refreshing: bool,
    /// When `true`, hide past DHCP guests that aren't connected now.
    pub online_only: bool,
    /// What the session remembers between actions.
    pub memory: Memory,
}

/// What a session remembers between actions; only the session's own
/// transitions change it.
pub struct Memory {
    /// Reused for subsequent `pfctl` calls after first successful auth.
    cached_password: Option<String>,
    /// MAC vendors looked up this session (a later pair wins).
    vendor_cache: Vec<(String, String)>,
    /// The privileged run whose outcome is awaited.
    pending: Option<PfRun>,
}

// ---------------------------------------------------------------------------
// Views
// ---------------------------------------------------------------------------

pub enum PendingView {
    Block(Seq<char>),
    Unblock(Seq<char>),
}

pub enum ModalView {
    Closed,
    Help,
    Vendor(Seq<char>, Seq<char>),
    Password(Seq<char>, PendingView),
}

pub enum KeyCodeView {
    Char(char),
    Esc,
    Enter,
    Backspace,
    Up,
    Down,
    Other,
}

pub struct KeyView {
    pub code: KeyCodeView,
    pub ctrl: bool,
}

pub enum EffectView {
    Nothing,
    Quit,
    StartRefresh,
    LookupVendor(Seq<char>),
    RunPf(PendingView, Seq<char>),
}

pub struct PfRunView {
    pub action: PendingView,
    pub password: Seq<char>,
    pub from_modal: bool,
}

/// Everything an [`App`] holds.
#[verifier::ext_equal]
pub struct AppState {
    pub sharing: SharingView,
    pub clients: Seq<ClientView>,
    pub selected: nat,
    pub status: Seq<char>,
    pub modal: ModalView,
    pub refreshing: bool,
    pub online_only: bool,
    pub cached_password: Option<Seq<char>>,
    pub vendors: Map<Seq<char>, Seq<char>>,
    pub pending: Option<PfRunView>,
}

impl View for PendingAction {
    type V = PendingView;

    open spec fn view(&self) -> PendingView {
        match self {
            PendingAction::Block(ip) => PendingView::Block(ip@),
            PendingAction::Unblock(ip) => PendingView::Unblock(ip@),
        }
    }
}

impl View for Modal {
    type V = ModalView;

    open spec fn view(&self) -> ModalView {
        match self {
            Modal::Closed => ModalView::Closed,
            Modal::Help => ModalView::Help,
            Modal::Vendor { mac, text } => ModalView::Vendor(mac@, text@),
            Modal::Password { input, action } => ModalView::Password(input@, action@),
        }
    }
}

impl View for KeyCode {
    type V = KeyCodeView;

    open spec fn view(&self) -> KeyCodeView {
        match self {
            KeyCode::Char(c) => KeyCodeView::Char(*c),
            KeyCode::Esc => KeyCodeView::Esc,
            KeyCode::Enter => KeyCodeView::Enter,
            KeyCode::Backspace => KeyCodeView::Backspace,
            KeyCode::Up => KeyCodeView::Up,
            KeyCode::Down => KeyCodeView::Down,
            KeyCode::Other => KeyCodeView::Other,
        }
    }
}

impl View for Key {
    type V = KeyView;

    open spec fn view(&self) -> KeyView {
        KeyView { code: self.code@, ctrl: self.ctrl }
    }
}

impl View for Effect {
    type V = EffectView;

    open spec fn view(&self) -> EffectView {
        match self {
            Effect::Nothing => EffectView::Nothing,
            Effect::Quit => EffectView::Quit,
            Effect::StartRefresh => EffectView::StartRefresh,
            Effect::LookupVendor(m) => EffectView::LookupVendor(m@),
            Effect::RunPf(a, p) => EffectView::RunPf(a@, p@),
        }
    }
}

impl View for PfRun {
    type V = PfRunView;

    closed spec fn view(&self) -> PfRunView {
        PfRunView { action: self.action@, password: self.password@, from_modal: self.from_modal }
    }
}

/// The pairs of a text-to-text list, as text.
pub open spec fn string_pairs(v: Seq<(String, String)>) -> Seq<(Seq<char>, Seq<char>)> {
    v.map_values(|p: (String, String)| (p.0@, p.1@))
}

impl View for App {
    type V = AppState;

    open spec fn view(&self) -> AppState {
        AppState {
            sharing: self.sharing@,
            clients: client_views(self.clients@),
            selected: self.selected as nat,
            status: self.status@,
            modal: self.modal@,
            refreshing: self.refreshing,
            online_only: self.online_only,
            cached_password: self.memory.password_view(),
            vendors: self.memory.vendors_view(),
            pending: self.memory.pending_view(),
        }
    }
}

impl Memory {
    /// The administrator password accepted earlier, if any.
    pub closed spec fn password_view(&self) -> Option<Seq<char>> {
        match self.cached_password {
            Some(p) => Some(p@),
            None => None,
        }
    }

    /// The vendor of each MAC looked up so far.
    pub closed spec fn vendors_view(&self) -> Map<Seq<char>, Seq<char>> {
        pairs_map(string_pairs(self.vendor_cache@))
    }

    /// The privileged run whose outcome is awaited, if any.
    pub closed spec fn pending_view(&self) -> Option<PfRunView> {
        match self.pending {
            Some(r) => Some(r@),
            None => None,
        }
    }
}

// ---------------------------------------------------------------------------
// Specification of the transitions
// ---------------------------------------------------------------------------

/// The clients shown in the table: all of them, or only the connected ones.
pub open spec fn visible(clients: Seq<ClientView>, online_only: bool) -> Seq<ClientView> {
    clients.filter(|c: ClientView| !online_only || c.connected)
}

/// Number of connected clients.
pub open spec fn online(clients: Seq<ClientView>) -> nat {
    clients.filter(|c: ClientView| c.connected).len()
}

/// The highlighted client, if the selection points at one.
pub open spec fn selection(s: AppState) -> Option<ClientView> {
    let v = visible(s.clients, s.online_only);
    if s.selected < v.len() {
        Some(v[s.selected as int])
    } else {
        None
    }
}

/// The state after a finished discovery pass: new status and clients, no
/// refresh in flight, the selection clamped to the visible rows, and a
/// "Refreshing…" (or empty) status line cleared.
pub open spec fn after_refresh(s: AppState, sharing: SharingView, clients: Seq<ClientView>) -> AppState {
    let n = visible(clients, s.online_only).len();
    AppState {
        sharing,
        clients,
        refreshing: false,
        selected: if s.selected >= n {
            if n == 0 {
                0
            } else {
                (n - 1) as nat
            }
        } else {
            s.selected
        },
        status: if s.status.len() == 0 || starts_with(s.status, "Refreshing"@) {
            Seq::empty()
        } else {
            s.status
        },
        ..s
    }
}

/// The state after a finished vendor lookup: the result is shown in the
/// vendor modal, and a successful one is remembered for the session.
pub open spec fn after_vendor(s: AppState, mac: Seq<char>, result: Result<Seq<char>, Seq<char>>) -> AppState {
    match result {
        Ok(v) => AppState { vendors: s.vendors.insert(mac, v), modal: ModalView::Vendor(mac, v), ..s },
        Err(e) => AppState { modal: ModalView::Vendor(mac, e), ..s },
    }
}

/// Start a refresh unless one is in flight: `(state, started)`.
pub open spec fn start_refresh(s: AppState) -> (AppState, bool) {
    if s.refreshing {
        (s, false)
    } else {
        (AppState { refreshing: true, status: "Refreshing\u{2026}"@, ..s }, true)
    }
}

/// The effect of a refresh request.
pub open spec fn refresh_effect(started: bool) -> EffectView {
    if started {
        EffectView::StartRefresh
    } else {
        EffectView::Nothing
    }
}

/// Milliseconds between automatic refreshes of the client list.
pub const AUTO_REFRESH_MS: u64 = 10000;

/// One turn of the refresh timer, `elapsed_ms` after the last automatic
/// refresh: when one is due a refresh starts (unless one is in flight).
pub open spec fn tick_step(s: AppState, elapsed_ms: u64) -> (AppState, EffectView) {
    if elapsed_ms >= AUTO_REFRESH_MS {
        (start_refresh(s).0, refresh_effect(start_refresh(s).1))
    } else {
        (s, EffectView::Nothing)
    }
}

/// Whether an automatic refresh is due `elapsed_ms` after the last one.
pub fn auto_refresh_due(elapsed_ms: u64) -> (r: bool)
    ensures
        r == (elapsed_ms >= AUTO_REFRESH_MS),
{
    elapsed_ms >= AUTO_REFRESH_MS
}

/// The pending action for the selected client.
pub open spec fn action_for(block: bool, ip: Seq<char>) -> PendingView {
    if block {
        PendingView::Block(ip)
    } else {
        PendingView::Unblock(ip)
    }
}

/// Block (`block`) or unblock the selected client: with a cached password
/// run it at once, else ask for the password.
pub open spec fn request_pf(s: AppState, block: bool) -> (AppState, EffectView) {
    match selection(s) {
        None => (AppState { status: "No client selected"@, ..s }, EffectView::Nothing),
        Some(c) => {
            let act = action_for(block, c.ip);
            match s.cached_password {
                Some(pw) => (
                    AppState {
                        pending: Some(PfRunView { action: act, password: pw, from_modal: false }),
                        ..s
                    },
                    EffectView::RunPf(act, pw),
                ),
                None => (
                    AppState { modal: ModalView::Password(Seq::empty(), act), status: Seq::empty(), ..s },
                    EffectView::Nothing,
                ),
            }
        },
    }
}

/// Show the vendor of the selected client: from the session cache, or by
/// asking for a lookup.
pub open spec fn request_vendor(s: AppState) -> (AppState, EffectView) {
    match selection(s) {
        None => (AppState { status: "No client selected"@, ..s }, EffectView::Nothing),
        Some(c) => if c.mac.len() == 0 {
            (AppState { status: "No MAC address"@, ..s }, EffectView::Nothing)
        } else if s.vendors.contains_key(c.mac) {
            (AppState { modal: ModalView::Vendor(c.mac, s.vendors[c.mac]), ..s }, EffectView::Nothing)
        } else {
            (AppState { status: "Looking up vendor\u{2026}"@, ..s }, EffectView::LookupVendor(c.mac))
        },
    }
}

/// The status line after a successful block or unblock.
pub open spec fn done_text(a: PendingView) -> Seq<char> {
    match a {
        PendingView::Block(ip) => "Blocked "@ + ip,
        PendingView::Unblock(ip) => "Unblocked "@ + ip,
    }
}

/// The state after the privileged run finished with `result`.
///
/// From the password prompt: success caches the password, closes the
/// prompt and refreshes; failure forgets any cached password, reports
/// "Auth failed: <error>" and clears the typed password. With the cached
/// password: success refreshes; failure forgets the password and opens the
/// prompt.
pub open spec fn pf_finished(s: AppState, result: Result<(), Seq<char>>) -> (AppState, EffectView) {
    match s.pending {
        None => (s, EffectView::Nothing),
        Some(run) => {
            let s0 = AppState { pending: None, ..s };
            if run.from_modal {
                match result {
                    Ok(_) => {
                        let s1 = AppState {
                            cached_password: Some(run.password),
                            modal: ModalView::Closed,
                            status: done_text(run.action),
                            ..s0
                        };
                        (start_refresh(s1).0, refresh_effect(start_refresh(s1).1))
                    },
                    Err(e) => (
                        AppState {
                            cached_password: None,
                            status: "Auth failed: "@ + e,
                            modal: match s0.modal {
                                ModalView::Password(_, a) => ModalView::Password(Seq::empty(), a),
                                m => m,
                            },
                            ..s0
                        },
                        EffectView::Nothing,
                    ),
                }
            } else {
                match result {
                    Ok(_) => {
                        let s1 = AppState { status: done_text(run.action), ..s0 };
                        (start_refresh(s1).0, refresh_effect(start_refresh(s1).1))
                    },
                    Err(_) => (
                        AppState {
                            cached_password: None,
                            modal: ModalView::Password(Seq::empty(), run.action),
                            status: Seq::empty(),
                            ..s0
                        },
                        EffectView::Nothing,
                    ),
                }
            }
        },
    }
}

/// Keys that dismiss a non-password modal: Esc, `c`, `q`.
pub open spec fn cancels_modal(k: KeyCodeView) -> bool {
    k == KeyCodeView::Esc || k == KeyCodeView::Char('c') || k == KeyCodeView::Char('q')
}

/// What a key does in the password prompt.
pub open spec fn password_key(s: AppState, input: Seq<char>, action: PendingView, k: KeyView) -> (AppState, EffectView) {
    match k.code {
        KeyCodeView::Esc => (AppState { modal: ModalView::Closed, status: "Cancelled"@, ..s }, EffectView::Nothing),
        KeyCodeView::Char('c') => (AppState { modal: ModalView::Closed, status: "Cancelled"@, ..s }, EffectView::Nothing),
        KeyCodeView::Enter => if input.len() == 0 {
            (AppState { status: "Password required"@, ..s }, EffectView::Nothing)
        } else {
            (
                AppState {
                    pending: Some(PfRunView { action, password: input, from_modal: true }),
                    ..s
                },
                EffectView::RunPf(action, input),
            )
        },
        KeyCodeView::Backspace => (
            AppState {
                modal: ModalView::Password(
                    if input.len() > 0 {
                        input.drop_last()
                    } else {
                        input
                    },
                    action,
                ),
                ..s
            },
            EffectView::Nothing,
        ),
        KeyCodeView::Char(c) => (
            AppState { modal: ModalView::Password(input.push(c), action), ..s },
            EffectView::Nothing,
        ),
        _ => (s, EffectView::Nothing),
    }
}

/// What a key does on the main view.
pub open spec fn main_key(s: AppState, k: KeyView) -> (AppState, EffectView) {
    match k.code {
        KeyCodeView::Char('q') => (s, EffectView::Quit),
        KeyCodeView::Esc => (s, EffectView::Quit),
        KeyCodeView::Char('r') => (start_refresh(s).0, refresh_effect(start_refresh(s).1)),
        KeyCodeView::Char('a') => (
            AppState {
                online_only: !s.online_only,
                selected: 0,
                status: if !s.online_only {
                    "Showing online only"@
                } else {
                    "Showing all (incl. past guests)"@
                },
                ..s
            },
            EffectView::Nothing,
        ),
        KeyCodeView::Char('?') => (AppState { modal: ModalView::Help, ..s }, EffectView::Nothing),
        KeyCodeView::Up => (AppState { selected: if s.selected > 0 { (s.selected - 1) as nat } else { 0 }, ..s }, EffectView::Nothing),
        KeyCodeView::Char('k') => (AppState { selected: if s.selected > 0 { (s.selected - 1) as nat } else { 0 }, ..s }, EffectView::Nothing),
        KeyCodeView::Down => (move_down(s), EffectView::Nothing),
        KeyCodeView::Char('j') => (move_down(s), EffectView::Nothing),
        KeyCodeView::Char('b') => request_pf(s, true),
        KeyCodeView::Char('u') => request_pf(s, false),
        KeyCodeView::Char('v') => request_vendor(s),
        KeyCodeView::Char('c') => if k.ctrl {
            (s, EffectView::Quit)
        } else {
            (s, EffectView::Nothing)
        },
        _ => (s, EffectView::Nothing),
    }
}

/// Move the selection one row down, staying on the last visible row.
pub open spec fn move_down(s: AppState) -> AppState {
    let n = visible(s.clients, s.online_only).len();
    if n > 0 {
        AppState {
            selected: if s.selected + 1 < n {
                s.selected + 1
            } else {
                (n - 1) as nat
            },
            ..s
        }
    } else {
        s
    }
}

/// What a key press does: the next state and the effect.
pub open spec fn key_step(s: AppState, k: KeyView) -> (AppState, EffectView) {
    match s.modal {
        ModalView::Password(input, action) => password_key(s, input, action, k),
        ModalView::Closed => main_key(s, k),
        _ => (
            if cancels_modal(k.code) {
                AppState { modal: ModalView::Closed, ..s }
            } else {
                s
            },
            EffectView::Nothing,
        ),
    }
}

/// The key moves the selection down (where `selected + 1` is computed).
pub open spec fn moves_down(s: AppState, k: KeyView) -> bool {
    s.modal == ModalView::Closed && (k.code == KeyCodeView::Down || k.code == KeyCodeView::Char('j'))
        && visible(s.clients, s.online_only).len() > 0
}

/// What a finished discovery pass carries.
pub open spec fn refresh_view(m: RefreshMsg) -> (SharingView, Seq<ClientView>) {
    match m {
        RefreshMsg::Done { sharing, clients } => (sharing@, client_views(clients@)),
    }
}

/// What a finished vendor lookup carries.
pub open spec fn vendor_view(m: VendorMsg) -> (Seq<char>, Result<Seq<char>, Seq<char>>) {
    match m {
        VendorMsg::Done { mac, result } => (
            mac@,
            match result {
                Ok(v) => Ok(v@),
                Err(e) => Err(e@),
            },
        ),
    }
}

/// The state after the given discovery passes, in order.
pub open spec fn after_refreshes(s: AppState, ms: Seq<RefreshMsg>) -> AppState
    decreases ms.len(),
{
    if ms.len() == 0 {
        s
    } else {
        let prev = after_refreshes(s, ms.drop_last());
        after_refresh(prev, refresh_view(ms.last()).0, refresh_view(ms.last()).1)
    }
}

/// The state after the given vendor lookups, in order.
pub open spec fn after_vendors(s: AppState, ms: Seq<VendorMsg>) -> AppState
    decreases ms.len(),
{
    if ms.len() == 0 {
        s
    } else {
        let prev = after_vendors(s, ms.drop_last());
        after_vendor(prev, vendor_view(ms.last()).0, vendor_view(ms.last()).1)
    }
}

/// The view of an optional client reference.
pub open spec fn opt_client(c: Option<&Client>) -> Option<ClientView> {
    match c {
        Some(x) => Some(x@),
        None => None,
    }
}

/// The views of a list of client references.
pub open spec fn ref_views(v: Seq<&Client>) -> Seq<ClientView> {
    v.map_values(|c: &Client| c@)
}

/// The state of a fresh session.
pub open spec fn initial_state() -> AppState {
    AppState {
        sharing: Sharing::spec_default(),
        clients: Seq::empty(),
        selected: 0,
        status: "Refreshing\u{2026}"@,
        modal: ModalView::Closed,
        refreshing: true,
        online_only: true,
        cached_password: None,
        vendors: Map::empty(),
        pending: None,
    }
}

fn copy_action(a: &PendingAction) -> (r: PendingAction)
    ensures
        r@ == a@,
{
    match a {
        PendingAction::Block(ip) => PendingAction::Block(ip.clone()),
        PendingAction::Unblock(ip) => PendingAction::Unblock(ip.clone()),
    }
}

fn join_text(a: &str, b: &String) -> (r: String)
    ensures
        r@ == a@ + b@,
{
    let mut r = String::from_str(a);
    r.append(b.as_str());
    r
}

fn done_status(a: &PendingAction) -> (r: String)
    ensures
        r@ == done_text(a@),
{
    match a {
        PendingAction::Block(ip) => join_text("Blocked ", ip),
        PendingAction::Unblock(ip) => join_text("Unblocked ", ip),
    }
}

impl Default for App {
    /// A new session (as [`App::new`]).
    fn default() -> (r: App)
        ensures
            r@ == initial_state(),
    {
        App::new()
    }
}

impl App {
    /// Create the state of a new session. A first client refresh is already
    /// marked as in flight: the caller starts the discovery pass.
    pub fn new() -> (r: App)
        ensures
            r@ == initial_state(),
    {
        let r = App {
            sharing: Sharing::default(),
            clients: Vec::new(),
            selected: 0,
            status: String::from_str("Refreshing\u{2026}"),
            modal: Modal::Closed,
            refreshing: true,
            online_only: true,
            memory: Memory { cached_password: None, vendor_cache: Vec::new(), pending: None },
        };
        assert(client_views(r.clients@) =~= Seq::<ClientView>::empty());
        assert(string_pairs(r.memory.vendor_cache@) =~= Seq::<(Seq<char>, Seq<char>)>::empty());
        assert(pairs_map(string_pairs(r.memory.vendor_cache@)) =~= Map::<Seq<char>, Seq<char>>::empty());
        r
    }

    /// Whether the terminal cursor should be visible (password modal open).
    pub fn needs_cursor(&self) -> (r: bool)
        ensures
            r == self@.modal is Password,
    {
        match self.modal {
            Modal::Password { .. } => true,
            _ => false,
        }
    }

    /// Clients visible in the table after applying [`Self::online_only`] filter.
    pub fn visible_clients(&self) -> (r: Vec<&Client>)
        ensures
            ref_views(r@) == visible(self@.clients, self@.online_only),
    {
        let mut r: Vec<&Client> = Vec::new();
        let mut i: usize = 0;
        let ghost cv = client_views(self.clients@);
        let ghost keep = |c: ClientView| !self.online_only || c.connected;
        assert(cv.take(0).filter(keep) =~= Seq::<ClientView>::empty());
        assert(ref_views(r@) =~= Seq::<ClientView>::empty());
        while i < self.clients.len()
            invariant
                i <= self.clients.len(),
                cv == client_views(self.clients@),
                keep == (|c: ClientView| !self.online_only || c.connected),
                ref_views(r@) == cv.take(i as int).filter(keep),
            decreases self.clients.len() - i,
        {
            proof {
                assert(cv.take(i + 1).drop_last() =~= cv.take(i as int));
                assert(cv[i as int] == self.clients@[i as int]@);
                reveal_with_fuel(Seq::<_>::filter, 1);
            }
            let c = &self.clients[i];
            if !self.online_only || c.connected {
                let ghost before = r@;
                r.push(c);
                assert(ref_views(r@) =~= ref_views(before).push(cv[i as int]));
            }
            i = i + 1;
        }
        assert(cv.take(self.clients.len() as int) =~= cv);
        r
    }

    /// Number of visible clients.
    fn visible_count(&self) -> (r: usize)
        ensures
            r == visible(self@.clients, self@.online_only).len(),
    {
        self.visible_clients().len()
    }

    /// Count of clients marked [`Client::connected`].
    pub fn online_count(&self) -> (r: usize)
        ensures
            r == online(self@.clients),
    {
        let mut n: usize = 0;
        let mut i: usize = 0;
        let ghost cv = client_views(self.clients@);
        let ghost keep = |c: ClientView| c.connected;
        assert(cv.take(0).filter(keep) =~= Seq::<ClientView>::empty());
        while i < self.clients.len()
            invariant
                i <= self.clients.len(),
                cv == client_views(self.clients@),
                keep == (|c: ClientView| c.connected),
                n == cv.take(i as int).filter(keep).len(),
                n <= i,
            decreases self.clients.len() - i,
        {
            proof {
                assert(cv.take(i + 1).drop_last() =~= cv.take(i as int));
                assert(cv[i as int] == self.clients@[i as int]@);
                reveal_with_fuel(Seq::<_>::filter, 1);
            }
            if self.clients[i].connected {
                n = n + 1;
            }
            i = i + 1;
        }
        assert(cv.take(self.clients.len() as int) =~= cv);
        n
    }

    /// One turn of the refresh timer, `elapsed_ms` after the last automatic
    /// refresh: starts a refresh when one is due (see [`auto_refresh_due`]).
    pub fn tick(&mut self, elapsed_ms: u64) -> (r: Effect)
        ensures
            (final(self)@, r@) == tick_step(old(self)@, elapsed_ms),
    {
        if auto_refresh_due(elapsed_ms) && self.refresh() {
            Effect::StartRefresh
        } else {
            Effect::Nothing
        }
    }

    /// Mark a client refresh as started, unless one is already in progress.
    /// Returns whether the caller should start a discovery pass.
    pub fn refresh(&mut self) -> (r: bool)
        ensures
            (final(self)@, r) == start_refresh(old(self)@),
    {
        if self.refreshing {
            return false;
        }
        self.refreshing = true;
        self.status = String::from_str("Refreshing\u{2026}");
        true
    }

    fn apply_refresh(&mut self, msg: RefreshMsg)
        ensures
            final(self)@ == after_refresh(old(self)@, refresh_view(msg).0, refresh_view(msg).1),
    {
        match msg {
            RefreshMsg::Done { sharing, clients } => {
                self.sharing = sharing;
                self.clients = clients;
                self.refreshing = false;
                let n = self.visible_count();
                if self.selected >= n {
                    self.selected = if n == 0 {
                        0
                    } else {
                        n - 1
                    };
                }
                let st = chars_of_string(&self.status);
                if st.len() == 0 || starts_with_chars(&st, &chars_of("Refreshing")) {
                    self.status = String::new();
                }
            },
        }
    }

    fn cached_vendor(&self, mac: &String) -> (r: Option<String>)
        ensures
            r is Some <==> self@.vendors.contains_key(mac@),
            r matches Some(v) ==> v@ == self@.vendors[mac@],
    {
        let ghost sp = string_pairs(self.memory.vendor_cache@);
        let m = chars_of_string(mac);
        let mut j: usize = self.memory.vendor_cache.len();
        assert(sp.take(j as int) =~= sp);
        while j > 0
            invariant
                j <= self.memory.vendor_cache.len(),
                sp == string_pairs(self.memory.vendor_cache@),
                m@ == mac@,
                pairs_map(sp).contains_key(mac@) == pairs_map(sp.take(j as int)).contains_key(mac@),
                pairs_map(sp).contains_key(mac@) ==> pairs_map(sp)[mac@] == pairs_map(sp.take(j as int))[mac@],
            decreases j,
        {
            assert(sp.take(j as int).drop_last() =~= sp.take(j - 1));
            assert(sp.take(j as int).last() == sp[j - 1]);
            assert(sp[j - 1] == (self.memory.vendor_cache@[j - 1].0@, self.memory.vendor_cache@[j - 1].1@));
            if eq_chars(&chars_of_string(&self.memory.vendor_cache[j - 1].0), &m) {
                return Some(self.memory.vendor_cache[j - 1].1.clone());
            }
            j = j - 1;
        }
        assert(sp.take(0) =~= Seq::<(Seq<char>, Seq<char>)>::empty());
        None
    }

    fn apply_vendor(&mut self, msg: VendorMsg)
        ensures
            final(self)@ == after_vendor(old(self)@, vendor_view(msg).0, vendor_view(msg).1),
    {
        match msg {
            VendorMsg::Done { mac, result } => {
                let text = match result {
                    Ok(v) => {
                        let ghost before = self.memory.vendor_cache@;
                        self.memory.vendor_cache.push((mac.clone(), v.clone()));
                        assert(string_pairs(self.memory.vendor_cache@) =~= string_pairs(before).push((mac@, v@)));
                        assert(string_pairs(self.memory.vendor_cache@).drop_last() =~= string_pairs(before));
                        v
                    },
                    Err(e) => e,
                };
                self.modal = Modal::Vendor { mac, text };
            },
        }
    }

    /// Apply finished background work: every discovery pass in `refreshed`,
    /// in order, then every vendor lookup in `vendors`, in order.
    ///
    /// Call once per event-loop iteration with what the workers delivered.
    pub fn poll_background(&mut self, refreshed: Vec<RefreshMsg>, vendors: Vec<VendorMsg>)
        ensures
            final(self)@ == after_vendors(after_refreshes(old(self)@, refreshed@), vendors@),
    {
        let ghost start = self@;
        let ghost rs = refreshed@;
        let ghost vs = vendors@;
        let mut refreshed = refreshed;
        let mut rest: Vec<RefreshMsg> = Vec::new();
        // take the messages in order
        let mut k: usize = refreshed.len();
        while k > 0
            invariant
                k <= refreshed.len(),
                refreshed@ == rs.take(k as int),
                rest@ == rs.skip(k as int).reverse(),
                k <= rs.len(),
            decreases k,
        {
            let m = refreshed.pop().unwrap();
            rest.push(m);
            k = k - 1;
            assert(refreshed@ =~= rs.take(k as int));
            assert(rest@ =~= rs.skip(k as int).reverse());
        }
        assert(rs.skip(0) =~= rs);
        let mut done: usize = 0;
        assert(rs.take(0) =~= Seq::<RefreshMsg>::empty());
        while rest.len() > 0
            invariant
                rest@ == rs.skip(done as int).reverse(),
                done <= rs.len(),
                rs.len() <= usize::MAX,
                self@ == after_refreshes(start, rs.take(done as int)),
            decreases rest.len(),
        {
            assert(rs.skip(done as int).reverse().len() == rs.len() - done);
            let m = rest.pop().unwrap();
            proof {
                assert(rs.skip(done as int).reverse().last() == rs[done as int]);
            }
            self.apply_refresh(m);
            proof {
                assert(rs.take(done + 1).drop_last() =~= rs.take(done as int));
                assert(rs.take(done + 1).last() == rs[done as int]);
            }
            done = done + 1;
            assert(rest@ =~= rs.skip(done as int).reverse());
        }
        assert(rs.take(done as int) =~= rs) by {
            assert(rs.skip(done as int).len() == 0);
        }
        let ghost mid = self@;
        let mut vendors = vendors;
        let mut vrest: Vec<VendorMsg> = Vec::new();
        let mut k: usize = vendors.len();
        while k > 0
            invariant
                k <= vendors.len(),
                vendors@ == vs.take(k as int),
                vrest@ == vs.skip(k as int).reverse(),
                k <= vs.len(),
            decreases k,
        {
            let m = vendors.pop().unwrap();
            vrest.push(m);
            k = k - 1;
            assert(vendors@ =~= vs.take(k as int));
            assert(vrest@ =~= vs.skip(k as int).reverse());
        }
        assert(vs.skip(0) =~= vs);
        let mut done: usize = 0;
        assert(vs.take(0) =~= Seq::<VendorMsg>::empty());
        while vrest.len() > 0
            invariant
                vrest@ == vs.skip(done as int).reverse(),
                done <= vs.len(),
                vs.len() <= usize::MAX,
                self@ == after_vendors(mid, vs.take(done as int)),
            decreases vrest.len(),
        {
            assert(vs.skip(done as int).reverse().len() == vs.len() - done);
            let m = vrest.pop().unwrap();
            proof {
                assert(vs.skip(done as int).reverse().last() == vs[done as int]);
            }
            self.apply_vendor(m);
            proof {
                assert(vs.take(done + 1).drop_last() =~= vs.take(done as int));
                assert(vs.take(done + 1).last() == vs[done as int]);
            }
            done = done + 1;
            assert(vrest@ =~= vs.skip(done as int).reverse());
        }
        assert(vs.take(done as int) =~= vs) by {
            assert(vs.skip(done as int).len() == 0);
        }
    }

    /// Currently highlighted client in the filtered table.
    fn selected_client(&self) -> (r: Option<&Client>)
        ensures
            opt_client(r) == selection(self@),
    {
        let v = self.visible_clients();
        if self.selected < v.len() {
            assert(ref_views(v@)[self.selected as int] == v@[self.selected as int]@);
            Some(v[self.selected])
        } else {
            None
        }
    }

    /// Start block flow — uses the cached password or opens the password prompt.
    fn request_block(&mut self) -> (r: Effect)
        ensures
            (final(self)@, r@) == request_pf(old(self)@, true),
    {
        self.request_pf(true)
    }

    /// Start unblock flow — uses the cached password or opens the password prompt.
    fn request_unblock(&mut self) -> (r: Effect)
        ensures
            (final(self)@, r@) == request_pf(old(self)@, false),
    {
        self.request_pf(false)
    }

    /// Start the block (`block`) or unblock flow for the selected client —
    /// uses the cached password or opens the password prompt.
    fn request_pf(&mut self, block: bool) -> (r: Effect)
        ensures
            (final(self)@, r@) == request_pf(old(self)@, block),
    {
        let ip = match self.selected_client() {
            Some(c) => c.ip.clone(),
            None => {
                self.status = String::from_str("No client selected");
                return Effect::Nothing;
            },
        };
        let act = if block {
            PendingAction::Block(ip)
        } else {
            PendingAction::Unblock(ip)
        };
        match &self.memory.cached_password {
            Some(pw) => {
                let password = pw.clone();
                let shown = copy_action(&act);
                let shown_pw = pw.clone();
                self.memory.pending = Some(PfRun { action: act, password, from_modal: false });
                Effect::RunPf(shown, shown_pw)
            },
            None => {
                self.modal = Modal::Password { input: String::new(), action: act };
                self.status = String::new();
                Effect::Nothing
            },
        }
    }

    /// Look up the MAC vendor of the selected client, cached per session.
    fn vendor_lookup(&mut self) -> (r: Effect)
        ensures
            (final(self)@, r@) == request_vendor(old(self)@),
    {
        let mac = match self.selected_client() {
            Some(c) => c.mac.clone(),
            None => {
                self.status = String::from_str("No client selected");
                return Effect::Nothing;
            },
        };
        if chars_of_string(&mac).len() == 0 {
            self.status = String::from_str("No MAC address");
            return Effect::Nothing;
        }
        match self.cached_vendor(&mac) {
            Some(v) => {
                self.modal = Modal::Vendor { mac, text: v };
                Effect::Nothing
            },
            None => {
                self.status = String::from_str("Looking up vendor\u{2026}");
                Effect::LookupVendor(mac)
            },
        }
    }

    /// Returns `true` for keys that dismiss a non-password modal.
    fn modal_cancel(code: &KeyCode) -> (r: bool)
        ensures
            r == cancels_modal(code@),
    {
        match code {
            KeyCode::Esc => true,
            KeyCode::Char(c) => *c == 'c' || *c == 'q',
            _ => false,
        }
    }

    fn take_modal(&mut self) -> (m: Modal)
        ensures
            m@ == old(self)@.modal,
            final(self)@ == (AppState { modal: ModalView::Closed, ..old(self)@ }),
    {
        let mut m = Modal::Closed;
        std::mem::swap(&mut m, &mut self.modal);
        m
    }

    /// A key in the password prompt.
    fn password_key(&mut self, key: Key) -> (r: Effect)
        requires
            old(self)@.modal is Password,
        ensures
            (final(self)@, r@) == (match old(self)@.modal {
                ModalView::Password(input, action) => password_key(old(self)@, input, action, key@),
                _ => (old(self)@, EffectView::Nothing),
            }),
    {
        let m = self.take_modal();
        let (input, action) = match m {
            Modal::Password { input, action } => (input, action),
            _ => {
                return Effect::Nothing;
            },
        };
        match key.code {
            KeyCode::Esc => {
                self.status = String::from_str("Cancelled");
                Effect::Nothing
            },
            KeyCode::Char('c') => {
                self.status = String::from_str("Cancelled");
                Effect::Nothing
            },
            KeyCode::Enter => {
                if chars_of_string(&input).len() == 0 {
                    self.modal = Modal::Password { input, action };
                    self.status = String::from_str("Password required");
                    return Effect::Nothing;
                }
                let shown = copy_action(&action);
                let run_action = copy_action(&action);
                let password = input.clone();
                let shown_pw = input.clone();
                self.modal = Modal::Password { input, action };
                self.memory.pending = Some(PfRun { action: run_action, password, from_modal: true });
                Effect::RunPf(shown, shown_pw)
            },
            KeyCode::Backspace => {
                let t = chars_of_string(&input);
                let new_input = if t.len() > 0 {
                    string_of(&slice(&t, 0, t.len() - 1))
                } else {
                    input
                };
                assert(t.len() > 0 ==> new_input@ =~= t@.drop_last());
                self.modal = Modal::Password { input: new_input, action };
                Effect::Nothing
            },
            KeyCode::Char(c) => {
                let mut input = input;
                push_char(&mut input, c);
                self.modal = Modal::Password { input, action };
                Effect::Nothing
            },
            _ => {
                self.modal = Modal::Password { input, action };
                Effect::Nothing
            },
        }
    }

    fn move_selection_down(&mut self)
        requires
            visible(old(self)@.clients, old(self)@.online_only).len() > 0 ==> old(self)@.selected
                < usize::MAX,
        ensures
            final(self)@ == move_down(old(self)@),
    {
        let n = self.visible_count();
        if n > 0 {
            let next = self.selected + 1;
            self.selected = if next < n {
                next
            } else {
                n - 1
            };
        }
    }

    /// A key on the main view.
    fn main_key(&mut self, key: Key) -> (r: Effect)
        requires
            old(self)@.modal is Closed,
            moves_down(old(self)@, key@) ==> old(self)@.selected < usize::MAX,
        ensures
            (final(self)@, r@) == main_key(old(self)@, key@),
    {
        match key.code {
            KeyCode::Char('q') => Effect::Quit,
            KeyCode::Esc => Effect::Quit,
            KeyCode::Char('r') => if self.refresh() {
                Effect::StartRefresh
            } else {
                Effect::Nothing
            },
            KeyCode::Char('a') => {
                self.online_only = !self.online_only;
                self.selected = 0;
                self.status = if self.online_only {
                    String::from_str("Showing online only")
                } else {
                    String::from_str("Showing all (incl. past guests)")
                };
                Effect::Nothing
            },
            KeyCode::Char('?') => {
                self.modal = Modal::Help;
                Effect::Nothing
            },
            KeyCode::Up => {
                if self.selected > 0 {
                    self.selected = self.selected - 1;
                }
                Effect::Nothing
            },
            KeyCode::Char('k') => {
                if self.selected > 0 {
                    self.selected = self.selected - 1;
                }
                Effect::Nothing
            },
            KeyCode::Down => {
                self.move_selection_down();
                Effect::Nothing
            },
            KeyCode::Char('j') => {
                self.move_selection_down();
                Effect::Nothing
            },
            KeyCode::Char('b') => self.request_block(),
            KeyCode::Char('u') => self.request_unblock(),
            KeyCode::Char('v') => self.vendor_lookup(),
            KeyCode::Char('c') => if key.ctrl {
                Effect::Quit
            } else {
                Effect::Nothing
            },
            _ => Effect::Nothing,
        }
    }

    /// Handle a key press: the next state and the outside work to do.
    ///
    /// Returns [`Effect::Quit`] when the app should exit (`q` or Esc on the
    /// main view, or Ctrl-C).
    pub fn handle_key(&mut self, key: Key) -> (r: Effect)
        requires
            moves_down(old(self)@, key@) ==> old(self)@.selected < usize::MAX,
        ensures
            (final(self)@, r@) == key_step(old(self)@, key@),
    {
        match self.modal {
            Modal::Password { .. } => self.password_key(key),
            Modal::Closed => self.main_key(key),
            _ => {
                if Self::modal_cancel(&key.code) {
                    self.modal = Modal::Closed;
                }
                Effect::Nothing
            },
        }
    }

    /// Report how the privileged run asked for by [`Effect::RunPf`] ended.
    pub fn pf_done(&mut self, result: Result<(), String>) -> (r: Effect)
        ensures
            (final(self)@, r@) == pf_finished(
                old(self)@,
                match result {
                    Ok(_) => Ok(()),
                    Err(e) => Err(e@),
                },
            ),
    {
        let mut p: Option<PfRun> = None;
        std::mem::swap(&mut p, &mut self.memory.pending);
        let run = match p {
            Some(run) => run,
            None => {
                return Effect::Nothing;
            },
        };
        if run.from_modal {
            match result {
                Ok(_) => {
                    self.memory.cached_password = Some(run.password);
                    self.modal = Modal::Closed;
                    self.status = done_status(&run.action);
                    if self.refresh() {
                        Effect::StartRefresh
                    } else {
                        Effect::Nothing
                    }
                },
                Err(e) => {
                    self.memory.cached_password = None;
                    self.status = join_text("Auth failed: ", &e);
                    let m = self.take_modal();
                    self.modal = match m {
                        Modal::Password { input: _, action } => Modal::Password { input: String::new(), action },
                        other => other,
                    };
                    Effect::Nothing
                },
            }
        } else {
            match result {
                Ok(_) => {
                    self.status = done_status(&run.action);
                    if self.refresh() {
                        Effect::StartRefresh
                    } else {
                        Effect::Nothing
                    }
                },
                Err(_) => {
                    self.memory.cached_password = None;
                    self.modal = Modal::Password { input: String::new(), action: run.action };
                    self.status = String::new();
                    Effect::Nothing
                },
            }
        }
    }
}

// ---------------------------------------------------------------------------
// Laws
// ---------------------------------------------------------------------------

/// The selection points at a visible row, or is 0 when none is visible.
pub open spec fn selection_ok(s: AppState) -> bool {
    s.selected < visible(s.clients, s.online_only).len() || s.selected == 0
}

/// A finished discovery pass always leaves the selection on a visible row
/// (or at 0 when no row is visible).
pub proof fn lemma_refresh_keeps_selection(s: AppState, sharing: SharingView, clients: Seq<ClientView>)
    ensures
        selection_ok(after_refresh(s, sharing, clients)),
{
}

/// A vendor result does not move the selection or change the rows.
pub proof fn lemma_vendor_keeps_selection(s: AppState, mac: Seq<char>, result: Result<Seq<char>, Seq<char>>)
    requires
        selection_ok(s),
    ensures
        selection_ok(after_vendor(s, mac, result)),
{
}

/// Every key press keeps the selection on a visible row.
pub proof fn lemma_keys_keep_selection(s: AppState, k: KeyView)
    requires
        selection_ok(s),
    ensures
        selection_ok(key_step(s, k).0),
{
    assert(visible(s.clients, !s.online_only).len() >= 0);
}

/// The outcome of a privileged run keeps the selection on a visible row.
pub proof fn lemma_pf_keeps_selection(s: AppState, result: Result<(), Seq<char>>)
    requires
        selection_ok(s),
    ensures
        selection_ok(pf_finished(s, result).0),
{
}

/// A refresh is never started twice: asking again while one is in flight
/// changes nothing and starts nothing.
pub proof fn lemma_no_double_refresh(s: AppState)
    ensures
        start_refresh(start_refresh(s).0).0 == start_refresh(s).0,
        !start_refresh(start_refresh(s).0).1,
        start_refresh(s).0.refreshing,
{
}

/// The timer refreshes the list every `AUTO_REFRESH_MS`, and never starts a
/// second refresh while one is in flight.
pub proof fn lemma_tick_refreshes(s: AppState, elapsed_ms: u64)
    ensures
        elapsed_ms >= AUTO_REFRESH_MS ==> tick_step(s, elapsed_ms).0.refreshing,
        elapsed_ms < AUTO_REFRESH_MS ==> tick_step(s, elapsed_ms) == (s, EffectView::Nothing),
        s.refreshing ==> tick_step(s, elapsed_ms) == (s, EffectView::Nothing),
{
}

/// A password that worked at the prompt is cached, and the next block or
/// unblock runs with it at once instead of asking again.
pub proof fn lemma_password_reused(s: AppState, block: bool)
    requires
        s.pending matches Some(run) && run.from_modal,
        selection(pf_finished(s, Ok(())).0) is Some,
    ensures
        pf_finished(s, Ok(())).0.cached_password == Some(s.pending->0.password),
        request_pf(pf_finished(s, Ok(())).0, block).1 == EffectView::RunPf(
            action_for(block, selection(pf_finished(s, Ok(())).0)->0.ip),
            s.pending->0.password,
        ),
{
}

/// A failed run forgets the cached password, so the next block or unblock
/// asks for it again.
pub proof fn lemma_failed_password_forgotten(s: AppState, e: Seq<char>)
    requires
        s.pending is Some,
    ensures
        pf_finished(s, Err(e)).0.cached_password is None,
{
}

/// A vendor that was looked up is shown from the session cache the next
/// time, without another lookup.
pub proof fn lemma_vendor_reused(s: AppState, mac: Seq<char>, v: Seq<char>)
    requires
        selection(after_vendor(s, mac, Ok(v))) matches Some(c) && c.mac == mac,
        mac.len() > 0,
    ensures
        request_vendor(after_vendor(s, mac, Ok(v))).1 == EffectView::Nothing,
        request_vendor(after_vendor(s, mac, Ok(v))).0.modal == ModalView::Vendor(mac, v),
{
}

/// Showing all clients shows every client; showing online only shows
/// exactly the connected ones, as many as `online` counts.
pub proof fn lemma_visible_rows(clients: Seq<ClientView>)
    ensures
        visible(clients, false) == clients,
        visible(clients, true).len() == online(clients),
        forall|i: int| 0 <= i < visible(clients, true).len() ==> (#[trigger] visible(clients, true)[i]).connected,
{
    lemma_filter_all(clients);
    lemma_filter_online(clients);
}

proof fn lemma_filter_online(clients: Seq<ClientView>)
    ensures
        visible(clients, true).len() == online(clients),
        forall|i: int| 0 <= i < visible(clients, true).len() ==> (#[trigger] visible(clients, true)[i]).connected,
    decreases clients.len(),
{
    reveal_with_fuel(Seq::<_>::filter, 1);
    if clients.len() > 0 {
        lemma_filter_online(clients.drop_last());
        let prev = visible(clients.drop_last(), true);
        assert forall|i: int| 0 <= i < visible(clients, true).len() implies (#[trigger] visible(clients, true)[i]).connected by {
            if i < prev.len() {
                assert(visible(clients, true)[i] == prev[i]);
            }
        }
    }
}

proof fn lemma_filter_all(clients: Seq<ClientView>)
    ensures
        visible(clients, false) == clients,
    decreases clients.len(),
{
    reveal_with_fuel(Seq::<_>::filter, 1);
    if clients.len() > 0 {
        lemma_filter_all(clients.drop_last());
        assert(clients.drop_last().push(clients.last()) =~= clients);
    } else {
        assert(visible(clients, false) =~= clients);
    }
}

/// The cursor is shown exactly while the password prompt is open, and Esc
/// or `c` there closes it without running anything.
pub proof fn lemma_password_cancel(s: AppState, k: KeyView)
    requires
        s.modal is Password,
        k.code == KeyCodeView::Esc || k.code == KeyCodeView::Char('c'),
    ensures
        key_step(s, k).0.modal == ModalView::Closed,
        key_step(s, k).1 == EffectView::Nothing,
        key_step(s, k).0.pending == s.pending,
{
}

/// On the main view `q` and Esc quit and change nothing.
pub proof fn lemma_quit_keys(s: AppState, k: KeyView)
    requires
        s.modal == ModalView::Closed,
        k.code == KeyCodeView::Esc || k.code == KeyCodeView::Char('q'),
    ensures
        key_step(s, k) == (s, EffectView::Quit),
{
}


/// A failed vendor lookup is not remembered: the session's vendor cache is
/// the same as before it, while a successful one adds the vendor for that
/// MAC (the rest of the cache unchanged).
pub proof fn lemma_vendor_cache(s: AppState, mac: Seq<char>, e: Seq<char>, v: Seq<char>)
    ensures
        after_vendor(s, mac, Err(e)).vendors == s.vendors,
        after_vendor(s, mac, Ok(v)).vendors == s.vendors.insert(mac, v),
{
}

/// A failed vendor lookup is retried: after it fails, closing the result
/// (Esc) and asking again for the same client's vendor (`v`) starts a new
/// lookup of that MAC.
pub proof fn lemma_failed_vendor_retried(s: AppState, mac: Seq<char>, e: Seq<char>)
    requires
        !s.vendors.contains_key(mac),
        mac.len() > 0,
        selection(s) matches Some(c) && c.mac == mac,
    ensures
        key_step(
            key_step(after_vendor(s, mac, Err(e)), KeyView { code: KeyCodeView::Esc, ctrl: false }).0,
            KeyView { code: KeyCodeView::Char('v'), ctrl: false },
        ).1 == EffectView::LookupVendor(mac),
{
    let t = key_step(after_vendor(s, mac, Err(e)), KeyView { code: KeyCodeView::Esc, ctrl: false }).0;
    assert(selection(t) == selection(s));
}

} // verus!