//! The handle through which one declared value is reached.
use once_cell::sync::OnceCell;
use vstd::prelude::*;
use crate::registry::{LazyError, Registry};

verus! {

#[verifier::external_type_specification]
#[verifier::external_body]
#[verifier::reject_recursive_types(T)]
pub struct ExOnceCell<T>(OnceCell<T>);

/// Relies on once_cell::sync::OnceCell::new, which makes an empty cell.
pub assume_specification<T>[ OnceCell::<T>::new ]() -> OnceCell<T>;

/// Relies on once_cell::sync::OnceCell::get, which reads the cell without blocking.
pub assume_specification<T>[ OnceCell::<T>::get ](cell: &OnceCell<T>) -> Option<&T>;

/// Relies on once_cell::sync::OnceCell::try_insert: on an empty cell it stores
/// `value` and returns a reference to it; on a filled one it hands `value` back.
pub assume_specification<T>[ OnceCell::<T>::try_insert ](cell: &OnceCell<T>, value: T) -> (r:
    Result<&T, (&T, T)>)
    ensures
        r matches Ok(v) ==> *v == value,
        r matches Err((_, v)) ==> v == value,
;

/// A declared value: the identity of the entry that builds it, and a cache
/// that is filled once, on the first successful [`Lazy::get`].
#[verifier::reject_recursive_types(M)]
pub struct Lazy<M> {
    entry: usize,
    cell: OnceCell<M>,
}

impl<M> Lazy<M> {
    /// The identity of the entry bound to this handle.
    pub closed spec fn id(&self) -> usize {
        self.entry
    }

    /// A handle bound to the entry with identity `entry`, with an empty cache.
    pub fn new(entry: usize) -> (r: Self)
        ensures
            r.id() == entry,
    {
        Lazy { entry, cell: OnceCell::new() }
    }

    /// The identity of the entry bound to this handle.
    pub fn identity(&self) -> (r: usize)
        ensures
            r == self.id(),
    {
        self.entry
    }

    /// The cached value, if the handle has claimed it already.
    pub fn cached(&self) -> (r: Option<&M>) {
        self.cell.get()
    }

    /// The handle's value. Once cached, it is returned without touching
    /// `registry`. Otherwise the result for the handle's identity is claimed
    /// from `registry`, turned into `M` by `recover`, and cached.
    pub fn get<V, F: Fn(V) -> Option<M>>(&self, registry: &mut Registry<V>, recover: F) -> (r:
        Result<&M, LazyError>)
        requires
            forall|v: V| recover.requires((v,)),
        ensures
            final(registry).phase() == old(registry).phase(),
            final(registry).results() == old(registry).results() || final(registry).results()
                == old(registry).results().remove(self.id()),
            !old(registry).claimable(self.id()) ==> final(registry).results() == old(
                registry,
            ).results(),
            !old(registry).claimable(self.id()) ==> (r is Ok || r matches Err(
                LazyError::NotInitialized,
            )),
            old(registry).claimable(self.id()) && final(registry).results() == old(
                registry,
            ).results() ==> r is Ok,
            old(registry).claimable(self.id()) && final(registry).results() != old(
                registry,
            ).results() ==> match r {
                Ok(v) => recover.ensures((old(registry).results()[self.id()],), Some(*v)),
                Err(LazyError::TypeMismatch) => recover.ensures(
                    (old(registry).results()[self.id()],),
                    None,
                ),
                Err(LazyError::AlreadySet) => exists|m: M|
                    recover.ensures((old(registry).results()[self.id()],), Some(m)),
                Err(LazyError::NotInitialized) => false,
            },
    {
        if let Some(value) = self.cell.get() {
            return Ok(value);
        }
        match registry.claim_as(self.entry, recover) {
            Err(e) => Err(e),
            Ok(m) => match self.cell.try_insert(m) {
                Ok(v) => Ok(v),
                Err(_) => Err(LazyError::AlreadySet),
            },
        }
    }
}

} // verus!
