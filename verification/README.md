# wifi_gui

A Wi-Fi picker for NetworkManager: it lists the networks `nmcli` sees, connects
to them, shows saved passwords and connection details, and switches a
WireGuard tunnel.

The library (`src/`, verified with Verus) holds everything that reads or
decides:

- `text`: character-level reading of command output (lines, trimming, words,
  splitting, decimal numbers), each stated against a specification.
- `nmcli`: the fields of `nmcli -t` lines, command results, saved Wi-Fi
  profile names, and the arguments handed to `nmcli`; with the law that
  splitting reads back what `nmcli -t` writes.
- `networks`: the scan list, one entry per SSID, strongest first, with the
  laws that keep it sound (unique SSIDs, known exactly when saved, an order
  that is fully determined, every sighted network listed, the strongest
  signal kept, and a network seen in use kept in use).
- `info`: the details of one network from its profile, the scan cache and
  the active connection.
- `wireguard`: finding the tunnel, its status, and the escalation through
  `doas`, `sudo` and `pkexec` as a state machine.
- `window`: the list, labels, status lines and password dialog of the egui
  window, with the law that its list is the backend's list of the output
  after its first line (or of those lines joined again), with no network
  marked known.

`app/` (the Tauri program; `--egui` opens the egui window instead) runs the programs (`nmcli`, `ip`, `which`, `wg-quick`), serves the
Tauri commands, computes the UI scale from the monitor, and draws the egui
window.
