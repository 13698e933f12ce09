//! The state of a dictionary's background fold, as the commit that starts it,
//! the task that runs it and the searches that wait for it see it.
//!
//! One fold runs at a time. Whoever waits asks again when the state changes.

use vstd::prelude::*;

verus! {

/// What one who waits for a settled dictionary does next.
#[derive(Debug, Clone, Copy, PartialEq, Eq, Structural)]
pub enum Settling {
    /// Waits for the fold to end.
    Fold,
    /// Waits for the settings to be written.
    Persist,
    /// Goes on.
    Done,
}

/// The state of the fold.
#[derive(Debug, Clone, Copy, PartialEq, Eq, Structural)]
pub struct DictionaryFold {
    /// A fold runs.
    pub running: bool,
    /// The dictionary was exchanged since a wait last said so.
    pub changed: bool,
    /// The settings are to be written.
    pub persist_pending: bool,
}

impl Default for DictionaryFold {
    fn default() -> (r: Self)
        ensures
            r == (DictionaryFold { running: false, changed: false, persist_pending: false }),
    {
        DictionaryFold { running: false, changed: false, persist_pending: false }
    }
}

impl DictionaryFold {
    /// Takes the one place for a fold; false where a fold runs already.
    pub fn begin(&mut self) -> (r: bool)
        ensures
            r == !old(self).running,
            *final(self) == (DictionaryFold { running: true, ..*old(self) }),
    {
        if self.running {
            return false;
        }
        self.running = true;
        true
    }

    /// The task has exchanged the dictionary.
    pub fn mark_changed(&mut self)
        ensures
            *final(self) == (DictionaryFold { changed: true, ..*old(self) }),
    {
        self.changed = true;
    }

    /// Gives the place for a fold back.
    pub fn finish(&mut self)
        ensures
            *final(self) == (DictionaryFold { running: false, ..*old(self) }),
    {
        self.running = false;
    }

    /// Whether a fold runs.
    pub fn in_flight(&self) -> (r: bool)
        ensures
            r == self.running,
    {
        self.running
    }

    /// The task has folded something: the settings are to be written.
    pub fn set_persist_pending(&mut self)
        ensures
            *final(self) == (DictionaryFold { persist_pending: true, ..*old(self) }),
    {
        self.persist_pending = true;
    }

    /// The settings were written.
    pub fn persisted(&mut self)
        ensures
            *final(self) == (DictionaryFold { persist_pending: false, ..*old(self) }),
    {
        self.persist_pending = false;
    }

    /// What one who closes a writer waits for: the end of a fold, however long
    /// it takes, and then the settings, unless the time is up.
    pub fn wait_settled(&self, time_is_up: bool) -> (r: Settling)
        ensures
            r == if self.running {
                Settling::Fold
            } else if self.persist_pending && !time_is_up {
                Settling::Persist
            } else {
                Settling::Done
            },
    {
        if self.running {
            Settling::Fold
        } else if self.persist_pending && !time_is_up {
            Settling::Persist
        } else {
            Settling::Done
        }
    }

    /// `None` while a fold runs; else whether the dictionary was exchanged
    /// since this last said so.
    pub fn wait(&mut self) -> (r: Option<bool>)
        ensures
            old(self).running ==> r is None && *final(self) == *old(self),
            !old(self).running ==> r == Some(old(self).changed) && *final(self) == (DictionaryFold {
                changed: false,
                ..*old(self)
            }),
    {
        if self.running {
            return None;
        }
        let changed = self.changed;
        self.changed = false;
        Some(changed)
    }
}

} // verus!
