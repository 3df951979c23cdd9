//! A Wi-Fi picker's logic for NetworkManager: reading what `nmcli` and `ip`
//! print, deciding what to run next, and what the two front ends show.
pub mod info;
pub mod networks;
pub mod nmcli;
pub mod text;
pub mod window;
pub mod wireguard;
