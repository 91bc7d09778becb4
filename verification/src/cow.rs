//! Mapping over a value that is borrowed or owned.
use std::borrow::Cow;
use vstd::prelude::*;

verus! {

/// The value that `cow` holds, borrowed or owned.
pub open spec fn cow_value<T: Clone>(cow: Cow<T>) -> T {
    match cow {
        Cow::Borrowed(b) => *b,
        Cow::Owned(o) => o,
    }
}

/// Applies `f` to the value of `cow`. What `f` picks out of a borrowed value
/// stays borrowed; what it picks out of an owned value is cloned.
pub fn map_cow_option<'a, T, U, F>(cow: Cow<'a, T>, f: F) -> (r: Option<Cow<'a, U>>) where
    T: Clone,
    U: Clone,
    F: FnOnce(&T) -> Option<&U>,

    requires
        f.requires((&cow_value(cow),)),
    ensures
        match r {
            Some(picked) => exists|u: &U|
                {
                    &&& #[trigger] f.ensures((&cow_value(cow),), Some(u))
                    &&& match cow {
                        Cow::Borrowed(_) => picked == Cow::<U>::Borrowed(u),
                        Cow::Owned(_) => picked is Owned && cloned(*u, cow_value(picked)),
                    }
                },
            None => f.ensures((&cow_value(cow),), None),
        },
{
    match cow {
        Cow::Borrowed(b) => match f(b) {
            Some(u) => Some(Cow::Borrowed(u)),
            None => None,
        },
        Cow::Owned(o) => match f(&o) {
            Some(u) => Some(Cow::Owned(u.clone())),
            None => None,
        },
    }
}

} // verus!
