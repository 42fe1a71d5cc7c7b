//! Lock and reference counting pointer abstractions as well as their projection
//! to members of a containing type.
use core::marker::PhantomData;
use vstd::prelude::*;

verus! {

/// Translate a reference to a containing compound type to a reference to a
/// contained data item.
///
/// Intended to be used with [`LockForInner`] and [`SyncRcPtrForInner`]. The data
/// item is identified by the `TAG` type.
pub trait DerefInnerByTag<TAG> {
    /// The contained data item's type.
    type Output;

    /// The contained data item.
    spec fn inner(&self) -> Self::Output;

    /// Translate a reference to the containing type to the member.
    fn deref_inner(&self) -> (r: &Self::Output)
        ensures
            *r == self.inner(),
    ;
}

/// Translate a `mut` reference to a containing compound type to a `mut`
/// reference to a contained data item.
///
/// Intended to be used with [`LockForInner`].
pub trait DerefMutInnerByTag<TAG>: DerefInnerByTag<TAG> + Sized {
    /// The containing value with the contained data item replaced.
    spec fn with_inner(&self, inner: Self::Output) -> Self;

    /// Replacing the contained data item does not affect any other part of the
    /// containing value, i.e. putting it back restores the latter.
    proof fn lemma_with_inner(&self, inner: Self::Output)
        ensures
            self.with_inner(inner).inner() == inner,
            self.with_inner(inner).with_inner(self.inner()) == *self,
    ;

    /// Translate a `mut` reference to the containing type to the member.
    fn deref_mut_inner(&mut self) -> (r: &mut Self::Output)
        ensures
            *r == old(self).inner(),
            *final(self) == old(self).with_inner(*final(r)),
    ;
}

/// Access to the value protected by a lock.
pub trait LockGuard<T> {
    /// The protected value.
    spec fn value(&self) -> T;

    /// Access the protected value.
    fn get(&self) -> (r: &T)
        ensures
            *r == self.value(),
    ;

    /// Access the protected value for modification.
    fn get_mut(&mut self) -> (r: &mut T)
        ensures
            *r == old(self).value(),
            final(self).value() == *final(r),
    ;
}

/// Execution environment agnostic lock abstraction.
///
/// Users of the `Lock` must assume that the implementation is of the spinlock
/// type and **must not** block while holding the lock or execute otherwise
/// long-running work.
pub trait Lock<T> {
    /// Lock guard type returned by [`lock()`](Self::lock).
    type Guard<'a>: LockGuard<T> where Self: 'a;

    /// Lock the lock.
    fn lock(&self) -> Self::Guard<'_>;
}

/// Virtual zero-cost [`Lock`] implementation for members of a
/// [`Lock`]-protected `struct`.
///
/// The member in question is identified by a `TAG` type and the containing
/// `struct OT` is expected to implement
/// [`DerefMutInnerByTag<TAG>`](DerefMutInnerByTag) for translating references to
/// the outer type to ones for the member.
pub struct LockForInner<'a, OT, OL, TAG> {
    /// The lock wrapping the containing `struct`.
    pub lock_for_outer: &'a OL,
    /// The containing type and the member's identification.
    pub phantom: PhantomData<(OT, TAG)>,
}

/// Locking guard obtained from [`LockForInner::lock()`](LockForInner::lock).
///
/// Alternatively, an existing guard for the [`Lock`] wrapping the outer `OT` may
/// get converted directly [to](Self::from_outer) and [back
/// from](Self::into_outer) a `LockForInnerGuard` instance.
pub struct LockForInnerGuard<G, OT, TAG> {
    /// Guard for the lock wrapping the containing `struct`.
    pub guard_for_outer: G,
    /// The containing type and the member's identification.
    pub phantom: PhantomData<(OT, TAG)>,
}

impl<'a, OT, OL, TAG> LockForInner<'a, OT, OL, TAG> where OT: DerefMutInnerByTag<TAG>, OL: Lock<OT> {
    /// Instantiate a [`LockForInner`] from a [`Lock`] wrapping the containing
    /// struct.
    ///
    /// # Arguments:
    ///
    /// * `lock_for_outer` - Reference to the [`Lock`] wrapping the containing
    ///   `struct OT`.
    pub fn from_outer(lock_for_outer: &'a OL) -> (r: Self)
        ensures
            r.lock_for_outer == lock_for_outer,
    {
        LockForInner { lock_for_outer, phantom: PhantomData }
    }

    /// Lock the lock wrapping the containing `struct`.
    pub fn lock(&self) -> (r: LockForInnerGuard<OL::Guard<'_>, OT, TAG>)
        ensures
            call_ensures(OL::lock, (self.lock_for_outer,), r.guard_for_outer),
    {
        LockForInnerGuard { guard_for_outer: self.lock_for_outer.lock(), phantom: PhantomData }
    }
}

impl<G, OT, TAG> LockForInnerGuard<G, OT, TAG> where G: LockGuard<OT>, OT: DerefMutInnerByTag<TAG> {
    /// Convert an existing guard for the [`Lock`] wrapping the outer `OT` to a
    /// `LockForInnerGuard`.
    pub fn from_outer(guard_for_outer: G) -> (r: Self)
        ensures
            r.guard_for_outer == guard_for_outer,
    {
        LockForInnerGuard { guard_for_outer, phantom: PhantomData }
    }

    /// Convert a `LockForInnerGuard` instance back to a guard for the [`Lock`]
    /// wrapping the outer `OT`.
    pub fn into_outer(self) -> (r: G)
        ensures
            r == self.guard_for_outer,
    {
        self.guard_for_outer
    }
}

impl<G, OT, TAG> LockGuard<OT::Output> for LockForInnerGuard<G, OT, TAG> where
    G: LockGuard<OT>,
    OT: DerefMutInnerByTag<TAG>,
 {
    open spec fn value(&self) -> OT::Output {
        self.guard_for_outer.value().inner()
    }

    fn get(&self) -> (r: &OT::Output) {
        self.guard_for_outer.get().deref_inner()
    }

    fn get_mut(&mut self) -> (r: &mut OT::Output)
        ensures
            final(self).guard_for_outer.value() == old(self).guard_for_outer.value().with_inner(*final(r)),
    {
        proof {
            assert forall|inner: OT::Output|
                (#[trigger] self.guard_for_outer.value().with_inner(inner)).inner() == inner by {
                self.guard_for_outer.value().lemma_with_inner(inner);
            }
        }
        self.guard_for_outer.get_mut().deref_mut_inner()
    }
}

/// Writing to a member through a [`LockForInnerGuard`] is visible in the outer
/// value upon conversion back to the outer guard, and no other part of the outer
/// value has changed.
pub proof fn law_inner_guard_modifies_member_only<G, OT, TAG>(
    before: LockForInnerGuard<G, OT, TAG>,
    after: LockForInnerGuard<G, OT, TAG>,
    inner: OT::Output,
) where G: LockGuard<OT>, OT: DerefMutInnerByTag<TAG>
    requires
        after.guard_for_outer.value() == before.guard_for_outer.value().with_inner(inner),
    ensures
        after.guard_for_outer.value().inner() == inner,
        after.guard_for_outer.value().with_inner(before.guard_for_outer.value().inner())
            == before.guard_for_outer.value(),
{
    before.guard_for_outer.value().lemma_with_inner(inner);
}

/// Constructible [`Lock`].
///
/// A [`Lock`] is not necessarily constructible by wrapping the to be protected
/// value. A counter-example is [`LockForInner`], which is obtained from a lock
/// wrapping a containing data structure.
pub trait ConstructibleLock<T>: Lock<T> + From<T> {
    /// Access the wrapped value.
    ///
    /// Access the wrapped value through a mutable reference on `Self` without
    /// going through a locking operation. Note that the existence of the `mut`
    /// reference on `Self` implies that it cannot have been locked concurrently
    /// and that access is exclusive.
    fn get_mut(&mut self) -> &mut T;
}

/// Execution environment agnostic read-write-lock abstraction.
///
/// A read-write-lock:
/// * A [`ReadGuard`](Self::ReadGuard) provides read-only access to the wrapped
///   value and there can be multiple concurrent ones at a given point in time.
/// * A [`WriteGuard`](Self::WriteGuard) is exclusive with both, itself and any
///   [`ReadGuards`](Self::ReadGuard) and provides write access.
pub trait RwLock<T>: From<T> {
    /// Read lock guard type returned by [`read()`](Self::read).
    type ReadGuard<'a> where Self: 'a;

    /// Write lock guard type returned by [`write()`](Self::write).
    type WriteGuard<'a>: LockGuard<T> where Self: 'a;

    /// Lock the `RwLock` non-exclusively for reading.
    fn read(&self) -> Self::ReadGuard<'_>;

    /// Lock the `RwLock` exclusively for writing.
    fn write(&self) -> Self::WriteGuard<'_>;

    /// Access the wrapped value without going through a locking operation.
    fn get_mut(&mut self) -> &mut T;
}

/// Execution environment agnostic weak pointer abstraction.
///
/// A `WeakSyncRcPtr` instance does not hinder destruction of the original
/// pointer's wrapped value.
pub trait WeakSyncRcPtr<T, P>: Clone {
    /// Convert a `WeakSyncRcPtr` back to a [`SyncRcPtr`].
    ///
    /// This will be successful only if at least one [`SyncRcPtr`] cloning spawn
    /// of the original [`SyncRcPtr`] instance is still around somewhere.
    fn upgrade(&self) -> Option<P>;
}

/// A reference to a [`SyncRcPtr`].
pub trait SyncRcPtrRef<'a, T, P, W>: Clone {
    /// The value pointed to.
    spec fn pointee(&self) -> T;

    /// The value a [`SyncRcPtr`] instance points to.
    spec fn pointee_of(p: &P) -> T;

    /// A cloned reference points to the same value.
    proof fn lemma_cloned(&self, other: Self)
        requires
            cloned(*self, other),
        ensures
            other.pointee() == self.pointee(),
    ;

    /// Create a new `SyncRcPtrRef` referencing the specified [`SyncRcPtr`]
    /// instance.
    fn new(p: &'a P) -> (r: Self)
        ensures
            r.pointee() == Self::pointee_of(p),
    ;

    /// Access the value pointed to.
    fn get(&self) -> (r: &T)
        ensures
            *r == self.pointee(),
    ;

    /// Obtain an owned [`SyncRcPtr`] instance from the reference.
    fn make_clone(&self) -> (r: P)
        ensures
            Self::pointee_of(&r) == self.pointee(),
    ;

    /// Obtain a [`WeakSyncRcPtr`] from the reference.
    fn make_weak_clone(&self) -> W;
}

/// Execution environment agnostic reference counting pointer abstraction.
///
/// The wrapped value will only get dropped once the last cloning spawn of the
/// original [`SyncRcPtr`] goes out of life.
pub trait SyncRcPtr<T>: Clone {
    /// Weak pointer type returned by [`downgrade()`](Self::downgrade).
    type WeakSyncRcPtr: WeakSyncRcPtr<T, Self>;

    /// Pointer reference type returned by [`as_ref()`](Self::as_ref).
    type SyncRcPtrRef<'a>: SyncRcPtrRef<'a, T, Self, Self::WeakSyncRcPtr> where Self: 'a;

    /// The value pointed to.
    spec fn pointee(&self) -> T;

    /// A cloned pointer points to the same value.
    proof fn lemma_cloned(&self, other: Self)
        requires
            cloned(*self, other),
        ensures
            other.pointee() == self.pointee(),
    ;

    /// References agree on what the pointer points to.
    proof fn lemma_pointee_of<'a>(&'a self)
        ensures
            Self::SyncRcPtrRef::<'a>::pointee_of(self) == self.pointee(),
    ;

    /// Access the value pointed to.
    fn get(&self) -> (r: &T)
        ensures
            *r == self.pointee(),
    ;

    /// Downgrade to a [`WeakSyncRcPtr`].
    fn downgrade(&self) -> Self::WeakSyncRcPtr;

    /// Create a reference to the pointer.
    fn as_ref(&self) -> (r: Self::SyncRcPtrRef<'_>)
        ensures
            r.pointee() == self.pointee(),
    ;
}

/// Failure to create a new [`SyncRcPtr`] instance.
#[derive(Debug, PartialEq, Eq, Clone, Copy, Structural)]
pub enum SyncRcPtrTryNewError {
    /// Memory allocation failure.
    AllocationFailure,
}

/// Failure to create and initialize a new [`SyncRcPtr`] instance.
#[derive(Debug)]
pub enum SyncRcPtrTryNewWithError<E> {
    /// Failure to allocate a new [`SyncRcPtr`].
    TryNewError(SyncRcPtrTryNewError),
    /// The provided initialization callback returned an error indication.
    WithError(E),
}

/// Virtual zero-cost [`SyncRcPtr`] implementation for members of a
/// [`SyncRcPtr`]-managed `struct`.
///
/// The member in question is identified by a `TAG` type and the containing
/// `struct OT` is expected to implement [`DerefInnerByTag<TAG>`](DerefInnerByTag)
/// for translating references to the outer type to ones for the member.
pub struct SyncRcPtrForInner<OT, OP, TAG> {
    /// Pointer to the containing `struct`.
    pub ptr_to_outer: OP,
    /// The containing type and the member's identification.
    pub phantom: PhantomData<(OT, TAG)>,
}

/// Weak pointer associated with [`SyncRcPtrForInner`].
pub struct WeakSyncRcPtrForInner<OT, OW, TAG> {
    /// Weak pointer to the containing `struct`.
    pub weak_ptr_to_outer: OW,
    /// The containing type and the member's identification.
    pub phantom: PhantomData<(OT, TAG)>,
}

/// Pointer reference associated with [`SyncRcPtrForInner`].
pub struct SyncRcPtrRefForInner<OT, OR, TAG> {
    /// Reference to the pointer to the containing `struct`.
    pub ptr_to_outer_ref: OR,
    /// The containing type and the member's identification.
    pub phantom: PhantomData<(OT, TAG)>,
}

impl<OT, OP, TAG> SyncRcPtrForInner<OT, OP, TAG> where OT: DerefInnerByTag<TAG>, OP: SyncRcPtr<OT> {
    /// Convert a [`SyncRcPtr`] for the containing type to an `SyncRcPtrForInner`
    /// for the inner member.
    ///
    /// # Arguments:
    ///
    /// * `ptr_to_outer` - The `SyncRcPtr<OT>` for the outer containing `struct`.
    pub fn new(ptr_to_outer: OP) -> (r: Self)
        ensures
            r.ptr_to_outer == ptr_to_outer,
    {
        SyncRcPtrForInner { ptr_to_outer, phantom: PhantomData }
    }

    /// Translate a `SyncRcPtrForInner` for a `struct` member back to a
    /// `SyncRcPtr` for the containing outer type.
    ///
    /// This involves a cloning of the pointer to the latter, i.e. a reference
    /// count increment. For a consuming alternative, see
    /// [`into_container()`](Self::into_container).
    pub fn get_container(&self) -> (r: OP)
        ensures
            cloned(self.ptr_to_outer, r),
            r.pointee() == self.ptr_to_outer.pointee(),
    {
        let r = self.ptr_to_outer.clone();
        proof {
            self.ptr_to_outer.lemma_cloned(r);
        }
        r
    }

    /// Translate a `SyncRcPtrForInner` for a `struct` member back into a
    /// `SyncRcPtr` for the containing outer type.
    pub fn into_container(self) -> (r: OP)
        ensures
            r == self.ptr_to_outer,
    {
        self.ptr_to_outer
    }

    /// Access the member.
    pub fn get(&self) -> (r: &OT::Output)
        ensures
            *r == self.ptr_to_outer.pointee().inner(),
    {
        self.ptr_to_outer.get().deref_inner()
    }

    /// Downgrade to a weak pointer.
    pub fn downgrade(&self) -> (r: WeakSyncRcPtrForInner<OT, OP::WeakSyncRcPtr, TAG>)
        ensures
            call_ensures(OP::downgrade, (&self.ptr_to_outer,), r.weak_ptr_to_outer),
    {
        WeakSyncRcPtrForInner { weak_ptr_to_outer: self.ptr_to_outer.downgrade(), phantom: PhantomData }
    }
}

impl<OT, OW, TAG> WeakSyncRcPtrForInner<OT, OW, TAG> {
    /// Convert back to a [`SyncRcPtrForInner`], if the value is still around.
    pub fn upgrade<OP>(&self) -> (r: Option<SyncRcPtrForInner<OT, OP, TAG>>) where OW: WeakSyncRcPtr<OT, OP>
        ensures
            call_ensures(
                OW::upgrade,
                (&self.weak_ptr_to_outer,),
                match r {
                    Some(p) => Some(p.ptr_to_outer),
                    None => None,
                },
            ),
    {
        match self.weak_ptr_to_outer.upgrade() {
            Some(ptr_to_outer) => Some(SyncRcPtrForInner { ptr_to_outer, phantom: PhantomData }),
            None => None,
        }
    }
}

/// A cloned reference to a member refers to the same container.
pub proof fn law_cloned_inner_reference_refers_to_container<'a, OT, OR, OP, OW, TAG>(
    inner_ref: SyncRcPtrRefForInner<OT, OR, TAG>,
    other: SyncRcPtrRefForInner<OT, OR, TAG>,
) where OT: DerefInnerByTag<TAG>, OR: SyncRcPtrRef<'a, OT, OP, OW>
    requires
        cloned(inner_ref.ptr_to_outer_ref, other.ptr_to_outer_ref),
    ensures
        other.ptr_to_outer_ref.pointee() == inner_ref.ptr_to_outer_ref.pointee(),
{
    inner_ref.ptr_to_outer_ref.lemma_cloned(other.ptr_to_outer_ref);
}

/// An owned pointer to a member made from a reference points to the container
/// the reference refers to.
pub proof fn law_owned_inner_pointer_points_to_container<'a, OT, OP, TAG>(
    inner_ref: SyncRcPtrRefForInner<OT, OP::SyncRcPtrRef<'a>, TAG>,
    owned: SyncRcPtrForInner<OT, OP, TAG>,
) where OT: DerefInnerByTag<TAG>, OP: SyncRcPtr<OT>
    requires
        OP::SyncRcPtrRef::<'a>::pointee_of(&owned.ptr_to_outer) == inner_ref.ptr_to_outer_ref.pointee(),
    ensures
        owned.ptr_to_outer.pointee() == inner_ref.ptr_to_outer_ref.pointee(),
{
    owned.ptr_to_outer.lemma_pointee_of();
}

/// A cloned pointer to a member points to the same container.
pub proof fn law_cloned_inner_pointer_refers_to_container<OT, OP, TAG>(
    ptr: SyncRcPtrForInner<OT, OP, TAG>,
    other: SyncRcPtrForInner<OT, OP, TAG>,
) where OT: DerefInnerByTag<TAG>, OP: SyncRcPtr<OT>
    requires
        cloned(ptr.ptr_to_outer, other.ptr_to_outer),
    ensures
        other.ptr_to_outer.pointee() == ptr.ptr_to_outer.pointee(),
{
    ptr.ptr_to_outer.lemma_cloned(other.ptr_to_outer);
}

impl<OT, OR, TAG> SyncRcPtrRefForInner<OT, OR, TAG> where OT: DerefInnerByTag<TAG> {
    /// Translate a reference to a pointer to the containing outer type to one to
    /// the member.
    pub fn new<'a, OP, OW>(ptr_to_outer_ref: &OR) -> (r: Self) where OR: SyncRcPtrRef<'a, OT, OP, OW>
        ensures
            cloned(*ptr_to_outer_ref, r.ptr_to_outer_ref),
            r.ptr_to_outer_ref.pointee() == ptr_to_outer_ref.pointee(),
    {
        let r = SyncRcPtrRefForInner { ptr_to_outer_ref: ptr_to_outer_ref.clone(), phantom: PhantomData };
        proof {
            ptr_to_outer_ref.lemma_cloned(r.ptr_to_outer_ref);
        }
        r
    }

    /// Translate a `SyncRcPtrRefForInner` for a `struct` member back to a
    /// `SyncRcPtrRef` for the containing outer type.
    pub fn get_container(&self) -> (r: &OR)
        ensures
            *r == self.ptr_to_outer_ref,
    {
        &self.ptr_to_outer_ref
    }

    /// Access the member.
    pub fn get<'a, OP, OW>(&self) -> (r: &OT::Output) where OR: SyncRcPtrRef<'a, OT, OP, OW>
        ensures
            *r == self.ptr_to_outer_ref.pointee().inner(),
    {
        self.ptr_to_outer_ref.get().deref_inner()
    }

    /// Obtain an owned [`SyncRcPtrForInner`] instance from the reference.
    pub fn make_clone<'a, OP, OW>(&self) -> (r: SyncRcPtrForInner<OT, OP, TAG>) where
        OR: SyncRcPtrRef<'a, OT, OP, OW>,

        ensures
            call_ensures(OR::make_clone, (&self.ptr_to_outer_ref,), r.ptr_to_outer),
            OR::pointee_of(&r.ptr_to_outer) == self.ptr_to_outer_ref.pointee(),
    {
        SyncRcPtrForInner { ptr_to_outer: self.ptr_to_outer_ref.make_clone(), phantom: PhantomData }
    }

    /// Obtain a weak pointer from the reference.
    pub fn make_weak_clone<'a, OP, OW>(&self) -> (r: WeakSyncRcPtrForInner<OT, OW, TAG>) where
        OR: SyncRcPtrRef<'a, OT, OP, OW>,

        ensures
            call_ensures(OR::make_weak_clone, (&self.ptr_to_outer_ref,), r.weak_ptr_to_outer),
    {
        WeakSyncRcPtrForInner { weak_ptr_to_outer: self.ptr_to_outer_ref.make_weak_clone(), phantom: PhantomData }
    }
}

impl<OT, OP: Clone, TAG> Clone for SyncRcPtrForInner<OT, OP, TAG> {
    fn clone(&self) -> (r: Self)
        ensures
            cloned(self.ptr_to_outer, r.ptr_to_outer),
    {
        SyncRcPtrForInner { ptr_to_outer: self.ptr_to_outer.clone(), phantom: PhantomData }
    }
}

impl<OT, OW: Clone, TAG> Clone for WeakSyncRcPtrForInner<OT, OW, TAG> {
    fn clone(&self) -> (r: Self)
        ensures
            cloned(self.weak_ptr_to_outer, r.weak_ptr_to_outer),
    {
        WeakSyncRcPtrForInner { weak_ptr_to_outer: self.weak_ptr_to_outer.clone(), phantom: PhantomData }
    }
}

impl<OT, OR: Clone, TAG> Clone for SyncRcPtrRefForInner<OT, OR, TAG> {
    fn clone(&self) -> (r: Self)
        ensures
            cloned(self.ptr_to_outer_ref, r.ptr_to_outer_ref),
    {
        SyncRcPtrRefForInner { ptr_to_outer_ref: self.ptr_to_outer_ref.clone(), phantom: PhantomData }
    }
}

impl<OT, OP, OW, TAG> WeakSyncRcPtr<OT::Output, SyncRcPtrForInner<OT, OP, TAG>> for WeakSyncRcPtrForInner<
    OT,
    OW,
    TAG,
> where OT: DerefInnerByTag<TAG>, OW: WeakSyncRcPtr<OT, OP> {
    fn upgrade(&self) -> (r: Option<SyncRcPtrForInner<OT, OP, TAG>>)
        ensures
            call_ensures(
                OW::upgrade,
                (&self.weak_ptr_to_outer,),
                match r {
                    Some(p) => Some(p.ptr_to_outer),
                    None => None,
                },
            ),
    {
        match self.weak_ptr_to_outer.upgrade() {
            Some(ptr_to_outer) => Some(SyncRcPtrForInner { ptr_to_outer, phantom: PhantomData }),
            None => None,
        }
    }
}

impl<'a, OT, OP, OW, OR, TAG> SyncRcPtrRef<
    'a,
    OT::Output,
    SyncRcPtrForInner<OT, OP, TAG>,
    WeakSyncRcPtrForInner<OT, OW, TAG>,
> for SyncRcPtrRefForInner<OT, OR, TAG> where OT: DerefInnerByTag<TAG>, OR: SyncRcPtrRef<'a, OT, OP, OW> {
    open spec fn pointee(&self) -> OT::Output {
        self.ptr_to_outer_ref.pointee().inner()
    }

    open spec fn pointee_of(p: &SyncRcPtrForInner<OT, OP, TAG>) -> OT::Output {
        OR::pointee_of(&p.ptr_to_outer).inner()
    }

    proof fn lemma_cloned(&self, other: Self) {
        self.ptr_to_outer_ref.lemma_cloned(other.ptr_to_outer_ref);
    }

    fn new(p: &'a SyncRcPtrForInner<OT, OP, TAG>) -> (r: Self) {
        SyncRcPtrRefForInner { ptr_to_outer_ref: OR::new(&p.ptr_to_outer), phantom: PhantomData }
    }

    fn get(&self) -> (r: &OT::Output) {
        self.ptr_to_outer_ref.get().deref_inner()
    }

    fn make_clone(&self) -> (r: SyncRcPtrForInner<OT, OP, TAG>)
        ensures
            OR::pointee_of(&r.ptr_to_outer) == self.ptr_to_outer_ref.pointee(),
    {
        SyncRcPtrForInner { ptr_to_outer: self.ptr_to_outer_ref.make_clone(), phantom: PhantomData }
    }

    fn make_weak_clone(&self) -> (r: WeakSyncRcPtrForInner<OT, OW, TAG>)
        ensures
            call_ensures(OR::make_weak_clone, (&self.ptr_to_outer_ref,), r.weak_ptr_to_outer),
    {
        WeakSyncRcPtrForInner { weak_ptr_to_outer: self.ptr_to_outer_ref.make_weak_clone(), phantom: PhantomData }
    }
}

/// Plain [`SyncRcPtrRef`] implementation for [`SyncRcPtr`]s with no special
/// requirements.
pub struct GenericSyncRcPtrRef<'a, T, P> {
    /// The referenced pointer.
    pub r: &'a P,
    /// The type of the value pointed to.
    pub phantom: PhantomData<T>,
}

impl<'a, T, P> Clone for GenericSyncRcPtrRef<'a, T, P> {
    fn clone(&self) -> (r: Self)
        ensures
            r.r == self.r,
    {
        GenericSyncRcPtrRef { r: self.r, phantom: PhantomData }
    }
}

impl<'a, T, P: SyncRcPtr<T>> SyncRcPtrRef<'a, T, P, P::WeakSyncRcPtr> for GenericSyncRcPtrRef<'a, T, P> {
    open spec fn pointee(&self) -> T {
        self.r.pointee()
    }

    open spec fn pointee_of(p: &P) -> T {
        p.pointee()
    }

    proof fn lemma_cloned(&self, other: Self) {
    }

    fn new(p: &'a P) -> (r: Self)
        ensures
            r.r == p,
    {
        GenericSyncRcPtrRef { r: p, phantom: PhantomData }
    }

    fn get(&self) -> (r: &T) {
        self.r.get()
    }

    fn make_clone(&self) -> (r: P)
        ensures
            cloned(*self.r, r),
            r.pointee() == self.pointee(),
    {
        let r = self.r.clone();
        proof {
            self.r.lemma_cloned(r);
        }
        r
    }

    fn make_weak_clone(&self) -> (r: P::WeakSyncRcPtr)
        ensures
            call_ensures(P::downgrade, (self.r,), r),
    {
        self.r.downgrade()
    }
}

} // verus!
