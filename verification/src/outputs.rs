//! What the client learns from the Wayland compositor, kept as plain values:
//! which announced globals it binds, and what each output (monitor) reports
//! about itself.
use vstd::prelude::*;
use crate::text::str_equal;

verus! {

/// The globals the client binds; any other global is only listed.
#[derive(Debug, Clone, Copy, PartialEq, Eq, Structural)]
pub enum GlobalKind {
    Compositor,
    LayerShell,
    Output,
    Other,
}

pub open spec fn global_kind_of(interface: Seq<char>) -> GlobalKind {
    if interface == "wl_compositor"@ {
        GlobalKind::Compositor
    } else if interface == "zwlr_layer_shell_v1"@ {
        GlobalKind::LayerShell
    } else if interface == "wl_output"@ {
        GlobalKind::Output
    } else {
        GlobalKind::Other
    }
}

/// Classifies an announced global by its interface name.
pub fn global_kind(interface: &str) -> (k: GlobalKind)
    ensures
        k == global_kind_of(interface@),
{
    if str_equal(interface, "wl_compositor") {
        GlobalKind::Compositor
    } else if str_equal(interface, "zwlr_layer_shell_v1") {
        GlobalKind::LayerShell
    } else if str_equal(interface, "wl_output") {
        GlobalKind::Output
    } else {
        GlobalKind::Other
    }
}

/// What an output has reported: its name, its current mode, and whether
/// its description has been shown.
pub struct MonitorInfo {
    pub name: Option<String>,
    pub width: i32,
    pub height: i32,
    pub refresh: i32,
    pub detected: bool,
}

impl MonitorInfo {
    /// An output that has reported nothing yet.
    pub fn new() -> (m: Self)
        ensures
            m.name is None,
            m.width == 0,
            m.height == 0,
            m.refresh == 0,
            !m.detected,
    {
        MonitorInfo { name: None, width: 0, height: 0, refresh: 0, detected: false }
    }

    /// A `mode` event: the output's size and refresh rate (in mHz).
    pub fn on_mode(&mut self, width: i32, height: i32, refresh: i32)
        ensures
            final(self).width == width,
            final(self).height == height,
            final(self).refresh == refresh,
            final(self).name == old(self).name,
            final(self).detected == old(self).detected,
    {
        self.width = width;
        self.height = height;
        self.refresh = refresh;
    }

    /// A `name` event.
    pub fn on_name(&mut self, name: String)
        ensures
            final(self).name == Some(name),
            final(self).width == old(self).width,
            final(self).height == old(self).height,
            final(self).refresh == old(self).refresh,
            final(self).detected == old(self).detected,
    {
        self.name = Some(name);
    }

    /// A `done` event: true the first time only, when the output is to be
    /// described.
    pub fn on_done(&mut self) -> (first: bool)
        ensures
            first == !old(self).detected,
            final(self).detected,
            final(self).name == old(self).name,
            final(self).width == old(self).width,
            final(self).height == old(self).height,
            final(self).refresh == old(self).refresh,
    {
        if self.detected {
            false
        } else {
            self.detected = true;
            true
        }
    }
}

} // verus!
