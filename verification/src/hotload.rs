//! When to reload a hot-loadable library: the decision of the loader loop,
//! which itself watches the file and loads the library.
use vstd::prelude::*;

verus! {

/// The modification time, in nanoseconds since the Unix epoch, of the library
/// that is loaded now.
pub struct ReloadWatch {
    pub last_modified: u128,
}

impl ReloadWatch {
    /// Watches a library loaded at `loaded_at`.
    pub fn new(loaded_at: u128) -> (watch: ReloadWatch)
        ensures
            watch.last_modified == loaded_at,
    {
        ReloadWatch { last_modified: loaded_at }
    }

    /// Tells whether a library file last modified at `modified` must be
    /// reloaded: exactly when it is newer than the loaded one, which it then
    /// becomes.
    pub fn should_reload(&mut self, modified: u128) -> (reload: bool)
        ensures
            reload == (modified > old(self).last_modified),
            final(self).last_modified == if reload {
                modified
            } else {
                old(self).last_modified
            },
    {
        if modified > self.last_modified {
            self.last_modified = modified;
            true
        } else {
            false
        }
    }
}

} // verus!
