//! Shared ownership through atomic reference counting: strong owners keep a
//! value alive, weak handles observe it without extending its life.
//!
//! The counts are those of `std::sync::Arc`; they depend on every handle of
//! the allocation, including handles owned by other threads, so the library
//! states no more of them than holds whatever the other handles do.

use vstd::prelude::*;

use std::ops::Deref;
use std::sync::{Arc, Weak};

verus! {

/// Snapshot of the counts of a [`Shared`] or [`SharedWeak`].
#[derive(Debug, Clone, Copy, PartialEq, Eq, Structural)]
pub struct ArcObservation {
    /// Number of strong owners.
    pub strong_count: usize,
    /// Number of weak handles tied to the value while it is alive.
    pub weak_count: usize,
}

/// Clones an `Arc`: another pointer to the same value (`Arc::clone`).
#[verifier::external_body]
fn arc_clone<T>(a: &Arc<T>) -> (r: Arc<T>)
    ensures
        *r == **a,
{
    Arc::clone(a)
}

/// Number of strong pointers to the allocation (`Arc::strong_count`); the
/// pointer passed in is one of them.
#[verifier::external_body]
fn arc_strong_count<T>(a: &Arc<T>) -> (n: usize)
    ensures
        n >= 1,
{
    Arc::strong_count(a)
}

/// Number of weak pointers to the allocation (`Arc::weak_count`). It
/// depends on handles held elsewhere, so nothing is stated of it.
#[verifier::external_body]
fn arc_weak_count<T>(a: &Arc<T>) -> (n: usize) {
    Arc::weak_count(a)
}

/// A `std::sync::Weak` pointer. Verus refuses a declaration of `Weak`
/// (its allocator parameter), so the pointer is held opaquely here.
#[verifier::external_body]
#[verifier::reject_recursive_types(T)]
struct WeakPointer<T> {
    weak: Weak<T>,
}

/// A weak pointer together with the value of the allocation it points to.
/// The value behind an `Arc` never changes, so the value recorded when the
/// pointer is made is the value of every strong pointer obtained from it.
/// Handles are only made by `arc_downgrade` and `weak_clone` below.
#[verifier::reject_recursive_types(T)]
struct WeakHandle<T> {
    pointer: WeakPointer<T>,
    target: Ghost<T>,
}

/// Creates a weak pointer to the allocation of `a` (`Arc::downgrade`); it
/// points to the value of `a`.
#[verifier::external_body]
fn arc_downgrade<T>(a: &Arc<T>) -> (w: WeakHandle<T>)
    ensures
        w.target@ == **a,
{
    WeakHandle { pointer: WeakPointer { weak: Arc::downgrade(a) }, target: Ghost(**a) }
}

/// Tries to obtain a strong pointer from a weak one (`Weak::upgrade`).
/// Whether a strong owner is still alive depends on other handles, so
/// whether it succeeds is left open; a strong pointer it gives points to
/// the same allocation, hence to the value the weak pointer was made for.
#[verifier::external_body]
fn weak_upgrade<T>(w: &WeakHandle<T>) -> (r: Option<Arc<T>>)
    ensures
        r matches Some(a) ==> *a == w.target@,
{
    w.pointer.weak.upgrade()
}

/// Number of strong pointers seen from a weak pointer
/// (`Weak::strong_count`); nothing is stated of it.
#[verifier::external_body]
fn weak_strong_count<T>(w: &WeakHandle<T>) -> (n: usize) {
    w.pointer.weak.strong_count()
}

/// Number of weak pointers seen from a weak pointer (`Weak::weak_count`);
/// nothing is stated of it.
#[verifier::external_body]
fn weak_weak_count<T>(w: &WeakHandle<T>) -> (n: usize) {
    w.pointer.weak.weak_count()
}

/// Another weak pointer to the same allocation (`Weak::clone`).
#[verifier::external_body]
fn weak_clone<T>(w: &WeakHandle<T>) -> (r: WeakHandle<T>)
    ensures
        r.target == w.target,
{
    WeakHandle { pointer: WeakPointer { weak: Weak::clone(&w.pointer.weak) }, target: Ghost(w.target@) }
}

/// A strong owner of a shared, immutable value.
pub struct Shared<T> {
    inner: Arc<T>,
}

impl<T> View for Shared<T> {
    /// The shared value.
    type V = T;

    closed spec fn view(&self) -> T {
        *self.inner
    }
}

impl<T> Shared<T> {
    /// Creates the first strong owner of `value`.
    pub fn new(value: T) -> (s: Self)
        ensures
            s@ == value,
    {
        Shared { inner: Arc::new(value) }
    }

    /// Another strong owner of the same value.
    pub fn clone_shared(&self) -> (s: Self)
        ensures
            s@ == self@,
    {
        Shared { inner: arc_clone(&self.inner) }
    }

    /// A weak handle of this value; it does not keep the value alive.
    pub fn downgrade(&self) -> (w: SharedWeak<T>)
        ensures
            w@ == self@,
    {
        SharedWeak { inner: arc_downgrade(&self.inner) }
    }

    /// Runs `f` with a shared reference to the value.
    pub fn with_ref<R>(&self, f: impl FnOnce(&T) -> R) -> (r: R)
        requires
            f.requires((&self@,)),
        ensures
            f.ensures((&self@,), r),
    {
        f(&*self.inner)
    }

    /// Current number of strong owners; this owner is one of them.
    pub fn strong_count(&self) -> (n: usize)
        ensures
            n >= 1,
    {
        arc_strong_count(&self.inner)
    }

    /// Current number of weak handles.
    pub fn weak_count(&self) -> (n: usize) {
        arc_weak_count(&self.inner)
    }

    /// Both counts at once.
    pub fn observations(&self) -> (o: ArcObservation)
        ensures
            o.strong_count >= 1,
    {
        ArcObservation { strong_count: self.strong_count(), weak_count: self.weak_count() }
    }

    /// The underlying `Arc`, for comparisons with the standard API.
    pub fn as_arc(&self) -> (a: &Arc<T>)
        ensures
            **a == self@,
    {
        &self.inner
    }
}

impl<T> Clone for Shared<T> {
    fn clone(&self) -> (s: Self)
        ensures
            s@ == self@,
    {
        self.clone_shared()
    }
}

impl<T> Deref for Shared<T> {
    type Target = T;

    fn deref(&self) -> (r: &T)
        ensures
            *r == self@,
    {
        &*self.inner
    }
}

/// A weak handle of a [`Shared`] value: it must be upgraded to a strong
/// owner before the value can be used.
#[verifier::reject_recursive_types(T)]
pub struct SharedWeak<T> {
    inner: WeakHandle<T>,
}

impl<T> View for SharedWeak<T> {
    /// The value the handle was made for.
    type V = T;

    closed spec fn view(&self) -> T {
        self.inner.target@
    }
}

impl<T> SharedWeak<T> {
    /// Tries to obtain a strong owner; `None` once no strong owner is left.
    /// A strong owner it gives owns the value the handle was made for.
    pub fn upgrade(&self) -> (r: Option<Shared<T>>)
        ensures
            r matches Some(s) ==> s@ == self@,
    {
        match weak_upgrade(&self.inner) {
            Some(inner) => Some(Shared { inner }),
            None => None,
        }
    }

    /// Current number of strong owners seen from the weak handle.
    pub fn strong_count(&self) -> (n: usize) {
        weak_strong_count(&self.inner)
    }

    /// Current number of weak handles seen from the weak handle; zero once
    /// no strong owner is left.
    pub fn weak_count(&self) -> (n: usize) {
        weak_weak_count(&self.inner)
    }

    /// Both counts at once.
    pub fn observations(&self) -> (o: ArcObservation) {
        ArcObservation { strong_count: self.strong_count(), weak_count: self.weak_count() }
    }
}

impl<T> Clone for SharedWeak<T> {
    fn clone(&self) -> (w: Self)
        ensures
            w@ == self@,
    {
        SharedWeak { inner: weak_clone(&self.inner) }
    }
}

} // verus!
