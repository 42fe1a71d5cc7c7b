//! Adaption of filesystem futures.
use crate::fs::NvFsError;
use vstd::prelude::*;

verus! {

/// Outcome of polling a filesystem future.
pub enum NvFsFuturePoll<T> {
    /// The future is not complete yet.
    Pending,
    /// The future is complete.
    Ready(T),
}

/// Adaptor holding everything needed for polling a filesystem future.
///
/// The adaptor assumes ownership of a random number generator for the duration
/// of the operation, which is eventually returned back upon completion.
pub struct NvFsFutureAsCoreFuture<P, F, R> {
    /// The filesystem instance.
    pub fs_instance: P,
    /// The random number generator.
    ///
    /// Is mandatory, lives in an [`Option`] only so that it can be taken out of
    /// a mutable reference.
    pub rng: Option<R>,
    /// The adapted future.
    pub fut: F,
}

impl<P, F, R> NvFsFutureAsCoreFuture<P, F, R> {
    /// Wrap a future in a new [`NvFsFutureAsCoreFuture`].
    ///
    /// # Arguments:
    ///
    /// * `fs_instance` - The filesystem instance the future `fut` had been
    ///   obtained from.
    /// * `fut` - The future to wrap.
    /// * `rng` - The random number generator instance to provide to `fut`.
    pub fn new(fs_instance: P, fut: F, rng: R) -> (r: Self)
        ensures
            r.fs_instance == fs_instance,
            r.fut == fut,
            r.rng == Some(rng),
    {
        NvFsFutureAsCoreFuture { fs_instance, rng: Some(rng), fut }
    }

    /// Outcome of polling the adaptor.
    ///
    /// `call` gives the wrapped future and the random number generator as
    /// they've been left behind by polling the former together with its outcome,
    /// or `None` if it's not been polled.
    ///
    /// Until completion, the wrapped future is polled each time. Upon completion,
    /// the random number generator is returned back alongside the result,
    /// otherwise it is kept for the next time. The wrapped future is not polled
    /// again after completion.
    pub open spec fn polled<T>(
        &self,
        new_self: &Self,
        call: Option<(F, R, NvFsFuturePoll<T>)>,
        r: NvFsFuturePoll<Result<(R, T), NvFsError>>,
    ) -> bool {
        &&& new_self.fs_instance == self.fs_instance
        &&& call is Some <==> self.rng is Some
        &&& match call {
            Some((fut, rng, NvFsFuturePoll::Ready(result))) => {
                &&& r == NvFsFuturePoll::Ready(Ok::<(R, T), NvFsError>((rng, result)))
                &&& new_self.rng is None
                &&& new_self.fut == fut
            },
            Some((fut, rng, NvFsFuturePoll::Pending)) => {
                &&& r is Pending
                &&& new_self.rng == Some(rng)
                &&& new_self.fut == fut
            },
            None => {
                &&& r == NvFsFuturePoll::Ready(Err::<(R, T), NvFsError>(NvFsError::Internal))
                &&& new_self.rng is None
                &&& new_self.fut == self.fut
            },
        }
    }

    /// Poll the wrapped future.
    ///
    /// Upon completion, the random number generator is returned back alongside
    /// the result. Polling again after completion is an error.
    ///
    /// # Arguments:
    ///
    /// * `poll_fut` - Function polling the wrapped future.
    pub fn poll<T, C: FnOnce(&P, &mut F, &mut R) -> NvFsFuturePoll<T>>(&mut self, poll_fut: C) -> (r: NvFsFuturePoll<
        Result<(R, T), NvFsError>,
    >)
        requires
            forall|fs_instance: &P, fut: &mut F, rng: &mut R| #[trigger]
                call_requires(poll_fut, (fs_instance, fut, rng)),
        ensures
            match old(self).rng {
                Some(lent) => exists|fut: &mut F, rng: &mut R, outcome: NvFsFuturePoll<T>|
                    {
                        &&& #[trigger] call_ensures(poll_fut, (&old(self).fs_instance, fut, rng), outcome)
                        &&& *fut == old(self).fut
                        &&& *rng == lent
                        &&& old(self).polled(final(self), Some((*final(fut), *final(rng), outcome)), r)
                    },
                None => old(self).polled(final(self), None, r),
            },
    {
        let mut rng = match self.rng.take() {
            Some(rng) => rng,
            None => {
                return NvFsFuturePoll::Ready(Err(NvFsError::Internal));
            },
        };
        match poll_fut(&self.fs_instance, &mut self.fut, &mut rng) {
            NvFsFuturePoll::Ready(result) => NvFsFuturePoll::Ready(Ok((rng, result))),
            NvFsFuturePoll::Pending => {
                self.rng = Some(rng);
                NvFsFuturePoll::Pending
            },
        }
    }
}

/// Over a sequence of polls, the adaptor polls the wrapped future once each time
/// until completion, retains the random number generator meanwhile and returns
/// it back exactly upon completion. Any poll thereafter is an error, and the
/// wrapped future is left alone.
///
/// `adaptors` is the sequence of the adaptor's states before, in between and
/// after the individual polls.
pub proof fn law_completes_once<P, F, R, T>(
    adaptors: Seq<NvFsFutureAsCoreFuture<P, F, R>>,
    calls: Seq<Option<(F, R, NvFsFuturePoll<T>)>>,
    outcomes: Seq<NvFsFuturePoll<Result<(R, T), NvFsError>>>,
    i: int,
)
    requires
        calls.len() == outcomes.len(),
        adaptors.len() == outcomes.len() + 1,
        adaptors[0].rng is Some,
        forall|k: int|
            0 <= k < outcomes.len() ==> (#[trigger] adaptors[k]).polled(&adaptors[k + 1], calls[k], outcomes[k]),
        0 <= i < outcomes.len(),
    ensures
        adaptors[i].fs_instance == adaptors[0].fs_instance,
        (forall|k: int| 0 <= k < i ==> #[trigger] outcomes[k] is Pending) ==> {
            &&& adaptors[i].rng is Some
            &&& i > 0 ==> adaptors[i].rng == Some(calls[i - 1]->Some_0.1)
            &&& calls[i] matches Some((_, rng, outcome)) && match outcome {
                NvFsFuturePoll::Pending => outcomes[i] is Pending,
                NvFsFuturePoll::Ready(result) => outcomes[i] == NvFsFuturePoll::Ready(
                    Ok::<(R, T), NvFsError>((rng, result)),
                ),
            }
        },
        (exists|k: int| 0 <= k < i && #[trigger] outcomes[k] is Ready) ==> {
            &&& adaptors[i].rng is None
            &&& calls[i] is None
            &&& outcomes[i] == NvFsFuturePoll::Ready(Err::<(R, T), NvFsError>(NvFsError::Internal))
        },
    decreases i,
{
    assert(adaptors[i].polled(&adaptors[i + 1], calls[i], outcomes[i]));
    if i > 0 {
        let j = i - 1;
        law_completes_once(adaptors, calls, outcomes, j);
        assert(adaptors[j].polled(&adaptors[j + 1], calls[j], outcomes[j]));
        if exists|k: int| 0 <= k < i && #[trigger] outcomes[k] is Ready {
            let k = choose|k: int| 0 <= k < i && #[trigger] outcomes[k] is Ready;
            assert(k < j ==> exists|k: int| 0 <= k < j && #[trigger] outcomes[k] is Ready);
        } else {
            assert(outcomes[j] is Pending);
        }
    }
}

/// Until completion, the wrapped future and the random number generator are the ones
/// from the respective preceding poll.
pub proof fn law_wrapped_future_is_retained<P, F, R, T>(
    before: NvFsFutureAsCoreFuture<P, F, R>,
    between: NvFsFutureAsCoreFuture<P, F, R>,
    after: NvFsFutureAsCoreFuture<P, F, R>,
    fut: F,
    rng: R,
    outcome: NvFsFuturePoll<T>,
    call: Option<(F, R, NvFsFuturePoll<T>)>,
    first: NvFsFuturePoll<Result<(R, T), NvFsError>>,
    second: NvFsFuturePoll<Result<(R, T), NvFsError>>,
)
    requires
        before.polled(&between, Some((fut, rng, outcome)), first),
        between.polled(&after, call, second),
    ensures
        between.fut == fut,
        between.fs_instance == before.fs_instance,
        after.fs_instance == before.fs_instance,
        outcome is Pending <==> first is Pending,
        outcome is Pending ==> between.rng == Some(rng) && call is Some,
        outcome is Ready ==> between.rng is None && call is None && after == between,
        call is None ==> second == NvFsFuturePoll::Ready(Err::<(R, T), NvFsError>(NvFsError::Internal)),
{
}

} // verus!
