//! Where the own length of an ordinal comes from.

use vstd::prelude::*;

verus! {

/// A source of own lengths: the bytes an ordinal's token owns, without what it
/// borrows from the next one.
pub trait OwnLens {
    /// Whether the source can be asked.
    spec fn ready(&self) -> bool;

    /// The own length of `ord`, if it is known.
    spec fn len_of(&self, ord: u32) -> Option<u16>;

    /// The own length of `ord`, if it is known.
    fn own_len(&self, ord: u32) -> (r: Option<u16>)
        requires
            self.ready(),
        ensures
            r == self.len_of(ord),
    ;
}

/// The lengths by ordinal, in a table.
impl OwnLens for Vec<u16> {
    open spec fn ready(&self) -> bool {
        true
    }

    open spec fn len_of(&self, ord: u32) -> Option<u16> {
        if ord < self@.len() {
            Some(self@[ord as int])
        } else {
            None
        }
    }

    fn own_len(&self, ord: u32) -> (r: Option<u16>) {
        if (ord as u64) < self.len() as u64 {
            Some(self[ord as usize])
        } else {
            None
        }
    }
}

/// The lengths a function gives.
pub struct LenFn<'f, F> {
    /// The function.
    pub f: &'f F,
}

/// Whether the function takes every ordinal and always gives it the same
/// length.
pub open spec fn steady<F: Fn(u32) -> Option<u16>>(f: F) -> bool {
    &&& forall|o: u32| #[trigger] call_requires(f, (o,))
    &&& forall|o: u32, a: Option<u16>, b: Option<u16>|
        #[trigger] call_ensures(f, (o,), a) && #[trigger] call_ensures(f, (o,), b) ==> a == b
}

/// The length the function gives `ord`.
pub open spec fn answer<F: Fn(u32) -> Option<u16>>(f: F, ord: u32) -> Option<u16> {
    choose|r: Option<u16>| call_ensures(f, (ord,), r)
}

impl<'f, F: Fn(u32) -> Option<u16>> OwnLens for LenFn<'f, F> {
    open spec fn ready(&self) -> bool {
        steady(*self.f)
    }

    open spec fn len_of(&self, ord: u32) -> Option<u16> {
        answer(*self.f, ord)
    }

    fn own_len(&self, ord: u32) -> (r: Option<u16>) {
        (self.f)(ord)
    }
}

} // verus!
