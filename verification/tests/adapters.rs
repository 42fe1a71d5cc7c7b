use cocoonfs::fs::NvFsError;
use cocoonfs::fs_future::{NvFsFutureAsCoreFuture, NvFsFuturePoll};
use cocoonfs::read_context::{NvFs, NvFsReadContext};
use cocoonfs::sync_types::{
    DerefInnerByTag, DerefMutInnerByTag, GenericSyncRcPtrRef, Lock, LockForInner, LockForInnerGuard, LockGuard,
    SyncRcPtr, SyncRcPtrForInner, SyncRcPtrRef, SyncRcPtrRefForInner, WeakSyncRcPtr, WeakSyncRcPtrForInner,
};

// The specification level members of the traits below are never executed.

struct TestTransaction {
    seq: u64,
}

#[derive(Clone, Debug, PartialEq, Eq)]
struct Sequence(u64);

impl<'a> From<&'a TestTransaction> for Sequence {
    fn from(value: &'a TestTransaction) -> Self {
        Sequence(value.seq)
    }
}

struct TestFs;

impl NvFs for TestFs {
    type ConsistentReadSequence = Sequence;
    type Transaction = TestTransaction;
}

#[test]
fn read_context_sequences() {
    let committed = NvFsReadContext::<TestFs>::Committed { seq: Sequence(7) };
    assert_eq!(committed.as_seq(), Sequence(7));
    let transaction = NvFsReadContext::<TestFs>::Transaction {
        transaction: TestTransaction { seq: 9 },
    };
    assert_eq!(transaction.as_seq(), Sequence(9));
}

#[test]
fn future_adaptor_returns_rng_upon_completion() {
    let mut fut = NvFsFutureAsCoreFuture::new("fs", "fut", 42u32);
    assert_eq!((fut.fs_instance, fut.fut), ("fs", "fut"));
    let r = fut.poll(|fs_instance: &&str, fut: &mut &str, rng: &mut u32| {
        assert_eq!((*fs_instance, *fut, *rng), ("fs", "fut", 42));
        *fut = "polled";
        *rng += 1;
        NvFsFuturePoll::<u8>::Pending
    });
    assert!(matches!(r, NvFsFuturePoll::Pending));
    let r = fut.poll(|fs_instance: &&str, fut: &mut &str, rng: &mut u32| {
        assert_eq!((*fs_instance, *fut, *rng), ("fs", "polled", 43));
        NvFsFuturePoll::Ready(5u8)
    });
    assert!(matches!(r, NvFsFuturePoll::Ready(Ok((43, 5)))));
    // It does not get polled again.
    let r = fut.poll(|_: &&str, _: &mut &str, _: &mut u32| -> NvFsFuturePoll<u8> { unreachable!() });
    assert!(matches!(r, NvFsFuturePoll::Ready(Err(NvFsError::Internal))));
}

struct Outer {
    inner: u32,
    other: u32,
}

struct InnerTag;

impl DerefInnerByTag<InnerTag> for Outer {
    type Output = u32;

    fn inner(&self) -> u32 {
        unreachable!()
    }

    fn deref_inner(&self) -> &u32 {
        &self.inner
    }
}

impl DerefMutInnerByTag<InnerTag> for Outer {
    fn with_inner(&self, _inner: u32) -> Outer {
        unreachable!()
    }

    fn lemma_with_inner(&self, _inner: u32) {}

    fn deref_mut_inner(&mut self) -> &mut u32 {
        &mut self.inner
    }
}

struct TestLock(std::sync::Mutex<Outer>);

struct TestGuard<'a>(std::sync::MutexGuard<'a, Outer>);

impl<'a> LockGuard<Outer> for TestGuard<'a> {
    fn value(&self) -> Outer {
        unreachable!()
    }

    fn get(&self) -> &Outer {
        &self.0
    }

    fn get_mut(&mut self) -> &mut Outer {
        &mut self.0
    }
}

impl Lock<Outer> for TestLock {
    type Guard<'a>
        = TestGuard<'a>
    where
        Self: 'a;

    fn lock(&self) -> TestGuard<'_> {
        TestGuard(self.0.lock().unwrap())
    }
}

#[test]
fn inner_lock_grants_access_to_member() {
    let lock = TestLock(std::sync::Mutex::new(Outer { inner: 1, other: 2 }));
    let inner: LockForInner<'_, Outer, TestLock, InnerTag> = LockForInner::from_outer(&lock);
    {
        let mut guard = inner.lock();
        assert_eq!(*guard.get(), 1);
        *guard.get_mut() = 5;
    }
    let guard = lock.lock();
    assert_eq!((guard.get().inner, guard.get().other), (5, 2));
    let converted: LockForInnerGuard<_, Outer, InnerTag> = LockForInnerGuard::from_outer(guard);
    assert_eq!(*converted.get(), 5);
    assert_eq!(converted.into_outer().get().other, 2);
}

#[derive(Clone)]
struct TestPtr(std::sync::Arc<Outer>);

#[derive(Clone)]
struct TestWeak(std::sync::Weak<Outer>);

impl WeakSyncRcPtr<Outer, TestPtr> for TestWeak {
    fn upgrade(&self) -> Option<TestPtr> {
        self.0.upgrade().map(TestPtr)
    }
}

impl SyncRcPtr<Outer> for TestPtr {
    type WeakSyncRcPtr = TestWeak;
    type SyncRcPtrRef<'a>
        = GenericSyncRcPtrRef<'a, Outer, TestPtr>
    where
        Self: 'a;

    fn pointee(&self) -> Outer {
        unreachable!()
    }

    fn lemma_cloned(&self, _other: TestPtr) {}

    fn lemma_pointee_of(&self) {}

    fn get(&self) -> &Outer {
        &self.0
    }

    fn downgrade(&self) -> TestWeak {
        TestWeak(std::sync::Arc::downgrade(&self.0))
    }

    fn as_ref(&self) -> GenericSyncRcPtrRef<'_, Outer, TestPtr> {
        GenericSyncRcPtrRef::new(self)
    }
}

#[test]
fn inner_pointer_grants_access_to_member() {
    let outer = TestPtr(std::sync::Arc::new(Outer { inner: 1, other: 2 }));
    let inner: SyncRcPtrForInner<Outer, TestPtr, InnerTag> = SyncRcPtrForInner::new(outer.clone());
    assert_eq!(*inner.get(), 1);
    assert_eq!(inner.get_container().get().other, 2);
    // The container's pointer is cloned, and hence may outlive the member's.
    assert_eq!(std::sync::Arc::strong_count(&outer.0), 2);
    let container = inner.get_container();
    assert_eq!(std::sync::Arc::strong_count(&outer.0), 3);
    assert!(std::sync::Arc::ptr_eq(&container.0, &outer.0));
    drop(container);
    let weak = inner.downgrade();
    let upgraded: Option<SyncRcPtrForInner<Outer, TestPtr, InnerTag>> = weak.clone().upgrade();
    assert!(std::sync::Arc::ptr_eq(&upgraded.unwrap().into_container().0, &outer.0));
    let cloned = inner.clone();
    assert!(std::sync::Arc::ptr_eq(&cloned.into_container().0, &outer.0));
    assert!(std::sync::Arc::ptr_eq(&inner.into_container().0, &outer.0));
    drop(outer);
    let upgraded: Option<SyncRcPtrForInner<Outer, TestPtr, InnerTag>> = weak.upgrade();
    assert!(upgraded.is_none());
}

fn upgraded_member<W: WeakSyncRcPtr<u32, SyncRcPtrForInner<Outer, TestPtr, InnerTag>>>(weak: &W) -> Option<u32> {
    weak.upgrade().map(|ptr| *ptr.get())
}

fn referenced_member<'a, R>(ptr: &'a SyncRcPtrForInner<Outer, TestPtr, InnerTag>) -> (u32, u32, Option<u32>)
where
    R: SyncRcPtrRef<
            'a,
            u32,
            SyncRcPtrForInner<Outer, TestPtr, InnerTag>,
            WeakSyncRcPtrForInner<Outer, TestWeak, InnerTag>,
        >,
{
    let r = R::new(ptr).clone();
    (*r.get(), *r.make_clone().get(), upgraded_member(&r.make_weak_clone()))
}

#[test]
fn inner_pointers_implement_the_pointer_traits() {
    let inner = SyncRcPtrForInner::new(TestPtr(std::sync::Arc::new(Outer { inner: 1, other: 2 })));
    let weak = inner.downgrade();
    assert_eq!(upgraded_member(&weak), Some(1));
    assert_eq!(
        referenced_member::<SyncRcPtrRefForInner<Outer, GenericSyncRcPtrRef<'_, Outer, TestPtr>, InnerTag>>(&inner),
        (1, 1, Some(1))
    );
    drop(inner);
    assert_eq!(upgraded_member(&weak), None);
}

#[test]
fn inner_pointer_reference_refers_to_container() {
    let outer = TestPtr(std::sync::Arc::new(Outer { inner: 1, other: 2 }));
    let outer_ref = outer.as_ref();
    let inner_ref: SyncRcPtrRefForInner<Outer, GenericSyncRcPtrRef<'_, Outer, TestPtr>, InnerTag> =
        SyncRcPtrRefForInner::new(&outer_ref);
    assert_eq!(*inner_ref.get(), 1);
    assert_eq!(inner_ref.get_container().get().other, 2);
    let owned = inner_ref.clone().make_clone();
    assert!(std::sync::Arc::ptr_eq(&owned.into_container().0, &outer.0));
    let weak = inner_ref.make_weak_clone();
    let upgraded: Option<SyncRcPtrForInner<Outer, TestPtr, InnerTag>> = weak.upgrade();
    assert!(std::sync::Arc::ptr_eq(&upgraded.unwrap().into_container().0, &outer.0));
}
