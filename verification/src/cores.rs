//! The layout of threads over cores.
use crate::text;
use vstd::prelude::*;
use vstd::string::StringExecFns;

verus! {

/// Cores that the threads are pinned to.
pub const CORES_NEEDED: usize = 4;

/// The number of the core that each thread is pinned to.
#[derive(Debug, Clone, Copy, PartialEq, Eq, Structural)]
pub struct CoreLayout {
    pub tokio: usize,
    pub runloop: usize,
    pub udp: usize,
    pub tcp: usize,
}

/// There are not enough cores.
#[derive(Debug, Clone, Copy, PartialEq, Eq, Structural)]
pub struct TooFewCores {
    pub found: usize,
}

impl TooFewCores {
    /// What the error says.
    pub open spec fn text(self) -> Seq<char> {
        "simulation needs at least 4 cores for its pinned thread layout, found "@ + text::decimal(
            self.found as nat,
        )
    }

    /// The error in words.
    pub fn message(&self) -> (r: String)
        ensures
            r@ == self.text(),
    {
        let mut r = String::from_str(
            "simulation needs at least 4 cores for its pinned thread layout, found ",
        );
        text::push_decimal(&mut r, self.found as u128);
        r
    }
}

/// Assigns the first available cores to the threads, one each.
pub fn pick_cores(ids: &[usize]) -> (r: Result<CoreLayout, TooFewCores>)
    ensures
        r == if ids@.len() < CORES_NEEDED {
            Err::<CoreLayout, TooFewCores>(TooFewCores { found: ids@.len() as usize })
        } else {
            Ok(CoreLayout { tokio: ids@[0], runloop: ids@[1], udp: ids@[2], tcp: ids@[3] })
        },
{
    if ids.len() < CORES_NEEDED {
        return Err(TooFewCores { found: ids.len() });
    }
    Ok(CoreLayout { tokio: ids[0], runloop: ids[1], udp: ids[2], tcp: ids[3] })
}

} // verus!
