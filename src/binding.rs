//! Positional resource slots and the typed views over them, and the dispatch
//! entry point that resolves the views and runs the backdrop kernel.

use vstd::prelude::*;
use crate::kernel::BackdropError;
use crate::kernel::backdrop_main;
use crate::kernel::scan_outcome;
use crate::wire::Config;
use crate::wire::CONFIG_SIZE;
use crate::wire::PATH_SIZE;
use crate::wire::TILE_SIZE;
use crate::wire::config_of;
use crate::wire::read_config;

verus! {

/// Number of resource slots the backdrop stage declares: configuration,
/// path table, tile grid.
pub const BACKDROP_SLOTS: usize = 3;

/// One resource slot: a byte buffer, read-only or read-write.
#[derive(Clone, Debug)]
pub enum CpuBinding {
    Buffer(Vec<u8>),
    BufferRW(Vec<u8>),
}

impl CpuBinding {
    /// The bytes the slot holds.
    pub open spec fn contents(&self) -> Seq<u8> {
        match self {
            CpuBinding::Buffer(b) => b@,
            CpuBinding::BufferRW(b) => b@,
        }
    }

    /// The bytes the slot holds.
    pub fn bytes(&self) -> (r: &Vec<u8>)
        ensures
            r@ == self.contents(),
    {
        match self {
            CpuBinding::Buffer(b) => b,
            CpuBinding::BufferRW(b) => b,
        }
    }

    /// Interprets the slot as one configuration record; fails unless the
    /// slot is exactly one record long.
    pub fn as_config(&self, slot: usize) -> (r: Result<Config, BackdropError>)
        ensures
            r == (if self.contents().len() == CONFIG_SIZE {
                Ok(config_of(self.contents()))
            } else {
                Err(BackdropError::BindingLayoutMismatch { slot })
            }),
    {
        let b = self.bytes();
        if b.len() != CONFIG_SIZE {
            return Err(BackdropError::BindingLayoutMismatch { slot });
        }
        Ok(read_config(b))
    }

    /// Interprets the slot as a read-only table of path records, viewed in
    /// place; fails unless the slot is a whole number of records.
    pub fn as_path_table(&self, slot: usize) -> (r: Result<&Vec<u8>, BackdropError>)
        ensures
            match r {
                Ok(b) => self.contents().len() % (PATH_SIZE as nat) == 0 && b@ == self.contents(),
                Err(e) => self.contents().len() % (PATH_SIZE as nat) != 0
                    && e == BackdropError::BindingLayoutMismatch { slot },
            },
    {
        let b = self.bytes();
        if b.len() % PATH_SIZE != 0 {
            return Err(BackdropError::BindingLayoutMismatch { slot });
        }
        Ok(b)
    }
}

/// The slot can serve as a mutable tile grid: it is writable and a whole
/// number of tile records long.
pub open spec fn is_tile_grid(b: CpuBinding) -> bool {
    b is BufferRW && b.contents().len() % (TILE_SIZE as nat) == 0
}

/// The first binding error of a slot list, checked in slot order, if any.
pub open spec fn binding_error(res: Seq<CpuBinding>) -> Option<BackdropError> {
    if res.len() != BACKDROP_SLOTS {
        Some(BackdropError::BindingCountMismatch { expected: BACKDROP_SLOTS, found: res.len() as usize })
    } else if res[0].contents().len() != CONFIG_SIZE {
        Some(BackdropError::BindingLayoutMismatch { slot: 0 })
    } else if res[1].contents().len() % (PATH_SIZE as nat) != 0 {
        Some(BackdropError::BindingLayoutMismatch { slot: 1 })
    } else if !is_tile_grid(res[2]) {
        Some(BackdropError::BindingLayoutMismatch { slot: 2 })
    } else {
        None
    }
}

/// Dispatches the backdrop stage over the slots `resources`: configuration,
/// path table, tile grid. The requested workgroup count only matters to a
/// parallel backend; this one always covers the whole grid.
///
/// A wrong slot count or a slot of the wrong kind or size is reported before
/// any tile is read, with every slot left as it was. Otherwise the kernel
/// runs on the tile grid in place and its outcome is that of
/// [`backdrop_main`]; the configuration and path slots are never changed.
pub fn backdrop(_n_wg: u32, resources: &mut Vec<CpuBinding>) -> (r: Result<(), BackdropError>)
    ensures
        match binding_error(old(resources)@) {
            Some(e) => r == Err::<(), BackdropError>(e) && final(resources)@ == old(resources)@,
            None => {
                &&& final(resources)@.len() == BACKDROP_SLOTS
                &&& final(resources)@[0] == old(resources)@[0]
                &&& final(resources)@[1] == old(resources)@[1]
                &&& final(resources)@[2] is BufferRW
                &&& scan_outcome(
                    config_of(old(resources)@[0].contents()),
                    old(resources)@[1].contents(),
                    old(resources)@[2].contents(),
                    final(resources)@[2].contents(),
                    r,
                )
            },
        },
{
    if resources.len() != BACKDROP_SLOTS {
        return Err(BackdropError::BindingCountMismatch { expected: BACKDROP_SLOTS, found: resources.len() });
    }
    let config = match resources[0].as_config(0) {
        Ok(c) => c,
        Err(e) => return Err(e),
    };
    match resources[1].as_path_table(1) {
        Ok(_) => {},
        Err(e) => return Err(e),
    }
    let grid_ok = match &resources[2] {
        CpuBinding::BufferRW(b) => b.len() % TILE_SIZE == 0,
        CpuBinding::Buffer(_) => false,
    };
    if !grid_ok {
        return Err(BackdropError::BindingLayoutMismatch { slot: 2 });
    }
    let ghost before = resources@;
    let mut grid = match resources.pop() {
        Some(CpuBinding::BufferRW(b)) => b,
        _ => Vec::new(),
    };
    assert(grid@ == before[2].contents());
    let r = match resources[1].as_path_table(1) {
        Ok(paths) => backdrop_main(&config, paths, &mut grid),
        Err(e) => Err(e),
    };
    resources.push(CpuBinding::BufferRW(grid));
    assert(resources@[0] == before[0]);
    r
}

} // verus!
