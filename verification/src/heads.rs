//! The current head, as the stream of new blocks tells it.
use vstd::prelude::*;

use crate::merge::HeadContext;

verus! {

/// What a new block means.
#[derive(Debug)]
pub enum HeadNews {
    /// The block has no number and is passed over.
    MissingNumber,
    /// The block has no hash and is passed over.
    MissingHash,
    /// The block is the new head: a run is to be started on top of it, and the
    /// run before it, if there is one, is to be cancelled.
    NewHead { head: HeadContext, cancel_previous: bool },
}

/// The current head and whether a run was started that has not been cancelled.
#[derive(Debug)]
pub struct HeadTracker {
    pub current: Option<[u8; 32]>,
    pub active: bool,
}

impl HeadTracker {
    /// No head has been seen.
    pub fn new() -> (res: Self)
        ensures
            res.current is None,
            !res.active,
    {
        HeadTracker { current: None, active: false }
    }

    /// Takes note of a new block. Only a block with both a number and a hash
    /// becomes the current head, and then only the run on top of it is active.
    pub fn observe(&mut self, number: Option<u64>, hash: Option<[u8; 32]>) -> (res: HeadNews)
        ensures
            match (number, hash) {
                (Some(number), Some(hash)) => {
                    &&& res == (HeadNews::NewHead {
                        head: HeadContext { number, hash },
                        cancel_previous: old(self).active,
                    })
                    &&& final(self).current == Some(hash)
                    &&& final(self).active
                },
                (Some(_), None) => res == HeadNews::MissingHash && *final(self) == *old(self),
                (None, _) => res == HeadNews::MissingNumber && *final(self) == *old(self),
            },
    {
        match number {
            Some(number) => match hash {
                Some(hash) => {
                    let cancel_previous = self.active;
                    self.current = Some(hash);
                    self.active = true;
                    HeadNews::NewHead { head: HeadContext { number, hash }, cancel_previous }
                },
                None => HeadNews::MissingHash,
            },
            None => HeadNews::MissingNumber,
        }
    }

    /// Ends the stream of blocks, and says whether a run is to be cancelled.
    pub fn close(&mut self) -> (res: bool)
        ensures
            res == old(self).active,
            !final(self).active,
            final(self).current == old(self).current,
    {
        let active = self.active;
        self.active = false;
        active
    }
}

} // verus!
