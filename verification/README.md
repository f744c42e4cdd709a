# arpmac

A terminal monitor for macOS Internet Sharing: it finds the sharing bridge,
lists the clients on the shared subnet (DHCP leases, ARP table, per-client
traffic from `nettop`), looks up NIC vendors, and blocks or unblocks clients
through a `pf` anchor.

## Layout

- `src/` — the library, verified with Verus:
  - `text.rs`: the text model (whitespace, words, lines, splitting, decimal
    numbers) and the verified string helpers the parsers are built on;
  - `ipv4.rs`: dotted-quad parsing, subnet membership and address order;
  - `net.rs`: parsers for `ifconfig`, the DHCP lease file, `arp -an` and
    `nettop` output, the client table they are merged into, the
    bridge-detection state machine, the vendor lookup request and reply, and
    byte-count formatting;
  - `pf.rs`: the rules file (render and read back), block / unblock, and the
    reload command;
  - `app.rs`: the application state machine — key handling, background
    results, the password prompt, the refresh timer — as functions from state and event to next
    state and effect;
  - `ui.rs`: the texts and row styles the screen shows;
  - `assoc.rs`: lemmas about key/value lists.
- `app/` — the program around the library: running commands, reading and
  writing files, threads, and drawing with `ratatui` / `crossterm`.
- `tests/` — tests of the library on concrete inputs.
