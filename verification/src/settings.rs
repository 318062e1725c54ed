//! Identity and transport settings of a running simulator.

use vstd::prelude::*;

verus! {

/// Top-level settings, each with a default.
#[derive(Debug)]
pub struct Metadata {
    /// Where the trading service listens.
    pub socket_addr: String,
    /// How often the physics step, in milliseconds.
    pub physics_tick_ms: u64,
}

/// The view of [`Metadata`].
pub ghost struct MetadataV {
    pub socket_addr: Seq<char>,
    pub physics_tick_ms: u64,
}

impl View for Metadata {
    type V = MetadataV;

    open spec fn view(&self) -> MetadataV {
        MetadataV { socket_addr: self.socket_addr@, physics_tick_ms: self.physics_tick_ms }
    }
}

impl Default for Metadata {
    fn default() -> (r: Self)
        ensures
            r@ == (MetadataV { socket_addr: "[::1]:8810"@, physics_tick_ms: 100 }),
    {
        Metadata { socket_addr: "[::1]:8810".to_owned(), physics_tick_ms: 100 }
    }
}

impl Clone for Metadata {
    fn clone(&self) -> (r: Self)
        ensures
            r@ == self@,
    {
        Metadata { socket_addr: self.socket_addr.clone(), physics_tick_ms: self.physics_tick_ms }
    }
}

/// The tick that a request for `ms` milliseconds comes to: at least one.
pub open spec fn tick_for(ms: int) -> int {
    if ms < 1 {
        1
    } else {
        ms
    }
}

impl Metadata {
    /// Set where the trading service listens; the address is handed back.
    pub fn set_socket_addr(&mut self, addr: &str) -> (r: String)
        ensures
            r@ == addr@,
            final(self)@ == (MetadataV { socket_addr: addr@, ..old(self)@ }),
    {
        self.socket_addr = addr.to_owned();
        addr.to_owned()
    }

    /// Set how often the physics step; what it was set to is handed back.
    pub fn set_physics_tick_ms(&mut self, ms: i64) -> (r: i64)
        ensures
            r == tick_for(ms as int),
            final(self)@ == (MetadataV { physics_tick_ms: tick_for(ms as int) as u64, ..old(self)@ }),
    {
        let tick: i64 = if ms < 1 {
            1
        } else {
            ms
        };
        self.physics_tick_ms = tick as u64;
        tick
    }
}

} // verus!
