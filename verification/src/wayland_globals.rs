//! Bookkeeping of the compositor globals that the menu binds.

use vstd::prelude::*;

use crate::text::str_eq;

verus! {

/// The registry name and version of one advertised global.
#[derive(Default, Debug)]
pub struct WaylandGlobal {
    pub name: u32,
    pub version: u32,
}

impl WaylandGlobal {
    /// The global with the given registry name and version.
    pub fn new(name: u32, version: u32) -> (g: Self)
        ensures
            g.name == name,
            g.version == version,
    {
        Self { name, version }
    }
}

/// The globals the menu needs, once the compositor has advertised them.
#[derive(Default, Debug)]
pub struct WaylandGlobals {
    pub compositor: Option<WaylandGlobal>,
    pub layer_shell: Option<WaylandGlobal>,
    pub shm: Option<WaylandGlobal>,
    pub seat: Option<WaylandGlobal>,
}

/// The advertised global is recorded as `g`.
pub open spec fn records(slot: Option<WaylandGlobal>, name: u32, version: u32) -> bool {
    slot matches Some(g) && g.name == name && g.version == version
}

impl WaylandGlobals {
    /// Records an advertised global under the interface it implements;
    /// other interfaces are ignored.
    pub fn set(&mut self, interface: &str, name: u32, version: u32)
        ensures
            interface@ == "wl_compositor"@ ==> records(final(self).compositor, name, version)
                && final(self).layer_shell == old(self).layer_shell && final(self).shm == old(
                self,
            ).shm && final(self).seat == old(self).seat,
            interface@ != "wl_compositor"@ && interface@ == "zwlr_layer_shell_v1"@ ==> records(
                final(self).layer_shell,
                name,
                version,
            ) && final(self).compositor == old(self).compositor && final(self).shm == old(self).shm
                && final(self).seat == old(self).seat,
            interface@ != "wl_compositor"@ && interface@ != "zwlr_layer_shell_v1"@ && interface@
                == "wl_seat"@ ==> records(final(self).seat, name, version) && final(self).compositor
                == old(self).compositor && final(self).layer_shell == old(self).layer_shell
                && final(self).shm == old(self).shm,
            interface@ != "wl_compositor"@ && interface@ != "zwlr_layer_shell_v1"@ && interface@
                != "wl_seat"@ && interface@ == "wl_shm"@ ==> records(final(self).shm, name, version)
                && final(self).compositor == old(self).compositor && final(self).layer_shell == old(
                self,
            ).layer_shell && final(self).seat == old(self).seat,
            interface@ != "wl_compositor"@ && interface@ != "zwlr_layer_shell_v1"@ && interface@
                != "wl_seat"@ && interface@ != "wl_shm"@ ==> *final(self) == *old(self),
    {
        if str_eq(interface, "wl_compositor") {
            self.compositor = Some(WaylandGlobal::new(name, version));
        } else if str_eq(interface, "zwlr_layer_shell_v1") {
            self.layer_shell = Some(WaylandGlobal::new(name, version));
        } else if str_eq(interface, "wl_seat") {
            self.seat = Some(WaylandGlobal::new(name, version));
        } else if str_eq(interface, "wl_shm") {
            self.shm = Some(WaylandGlobal::new(name, version));
        }
    }
}

} // verus!
