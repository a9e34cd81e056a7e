//! A cache of one value that is recomputed when it has grown too old.
//!
//! The cache remembers the value that its producer gave last and the instant
//! at which it gave it. A call returns that value while it is no older than
//! the configured age and runs the producer otherwise. Whoever calls holds
//! the cache exclusively, from the look at the clock to the end of the
//! producer's run, so two calls never recompute side by side.
use crate::clock::now;
use vstd::prelude::*;

verus! {

/// How long a produced value is served before it is produced again.
#[derive(Clone, Copy, Debug)]
pub struct CacheConfig {
    /// The greatest age, in nanoseconds, at which a value is still served.
    pub max_age: u128,
}

/// The last refresh of a cache and the rule by which it goes stale.
pub struct SingleFlight<C> {
    max_age: u128,
    last: Option<(u128, C)>,
}

/// What `outcome` of the producer, obtained at `now`, makes of a cache that
/// held `before`: a success is returned and a copy of it is held with `now`
/// as its instant; a failure is returned and the cache holds what it held.
pub open spec fn settled<C: Clone, E>(
    before: Option<(u128, C)>,
    now: u128,
    outcome: Result<C, E>,
    after: Option<(u128, C)>,
    returned: Result<C, E>,
) -> bool {
    &&& returned == outcome
    &&& match outcome {
        Ok(value) => after matches Some((at, held)) && at == now && cloned(value, held),
        Err(_) => after == before,
    }
}

/// Whether `found` is what a look at `held` gives: a copy of it, or nothing
/// where there is nothing.
pub open spec fn copy_of<C: Clone>(held: Option<C>, found: Option<C>) -> bool {
    match (held, found) {
        (Some(value), Some(copy)) => cloned(value, copy),
        (None, None) => true,
        _ => false,
    }
}

impl<C> SingleFlight<C> {
    /// The greatest age at which the held value is served.
    pub closed spec fn max_age(&self) -> u128 {
        self.max_age
    }

    /// The instant of the last successful refresh and the value it gave.
    pub closed spec fn last(&self) -> Option<(u128, C)> {
        self.last
    }

    /// The held value, if there is one and at `now` it is no older than
    /// the greatest age. A value refreshed after `now` is not served.
    pub open spec fn fresh(&self, now: u128) -> Option<C> {
        match self.last() {
            Some((at, value)) => if at <= now && now - at <= self.max_age() {
                Some(value)
            } else {
                None
            },
            None => None,
        }
    }

    /// A cache that holds nothing yet.
    pub fn new(config: CacheConfig) -> (cache: SingleFlight<C>)
        ensures
            cache.max_age() == config.max_age,
            cache.last() is None,
    {
        SingleFlight { max_age: config.max_age, last: None }
    }
}

impl<C: Clone> SingleFlight<C> {
    /// A copy of the held value if it is fresh at `now`; `None` tells the
    /// caller to run the producer.
    pub fn fresh_at(&self, now: u128) -> (found: Option<C>)
        ensures
            copy_of(self.fresh(now), found),
    {
        match &self.last {
            Some((at, value)) => {
                if *at <= now && now - *at <= self.max_age {
                    Some(value.clone())
                } else {
                    None
                }
            },
            None => None,
        }
    }

    /// Takes in what the producer gave at `now`. A success becomes the held
    /// value; a failure leaves instant and value as they were, so the next
    /// call tries again.
    pub fn settle<E>(&mut self, now: u128, outcome: Result<C, E>) -> (returned: Result<C, E>)
        ensures
            final(self).max_age() == old(self).max_age(),
            settled(old(self).last(), now, outcome, final(self).last(), returned),
    {
        match outcome {
            Ok(value) => {
                self.last = Some((now, value.clone()));
                Ok(value)
            },
            Err(error) => Err(error),
        }
    }
}

/// A producer behind a [`SingleFlight`] cache.
pub struct CachedFn<F, C> {
    func: F,
    cache: SingleFlight<C>,
}

impl<F, C> CachedFn<F, C> {
    /// The producer.
    pub closed spec fn func(&self) -> F {
        self.func
    }

    /// The cache in front of the producer.
    pub closed spec fn cache(&self) -> SingleFlight<C> {
        self.cache
    }
}

/// Puts an empty cache with the age limit of `config` in front of `func`.
pub fn create_cached_fn<F, C, E>(func: F, config: CacheConfig) -> (cached: CachedFn<F, C>) where
    F: Fn() -> Result<C, E>,
    C: Clone,

    ensures
        cached.func() == func,
        cached.cache().max_age() == config.max_age,
        cached.cache().last() is None,
{
    CachedFn { func, cache: SingleFlight::new(config) }
}

impl<F, C> CachedFn<F, C> {
    /// The held value where it is fresh, else what the producer gives now.
    ///
    /// Either the clock read some instant at which the held value was fresh:
    /// then a copy of it is returned, the producer has not run and the cache
    /// is as it was. Or it read an instant at which nothing fresh was held:
    /// then the producer ran once, and its outcome was settled at a second
    /// reading of the clock.
    pub fn call<E>(&mut self) -> (returned: Result<C, E>) where F: Fn() -> Result<C, E>, C: Clone
        requires
            call_requires(old(self).func(), ()),
        ensures
            final(self).func() == old(self).func(),
            final(self).cache().max_age() == old(self).cache().max_age(),
            ({
                ||| exists|read: u128|
                    {
                        &&& (#[trigger] old(self).cache().fresh(read)) is Some
                        &&& returned matches Ok(copy) && cloned(
                            old(self).cache().fresh(read)->0,
                            copy,
                        )
                        &&& final(self).cache() == old(self).cache()
                    }
                ||| exists|read: u128, produced: Result<C, E>, stored: u128|
                    {
                        &&& (#[trigger] old(self).cache().fresh(read)) is None
                        &&& call_ensures(old(self).func(), (), produced)
                        &&& #[trigger] settled(
                            old(self).cache().last(),
                            stored,
                            produced,
                            final(self).cache().last(),
                            returned,
                        )
                    }
            }),
    {
        let read = now();
        match self.cache.fresh_at(read) {
            Some(copy) => Ok(copy),
            None => {
                let produced = (self.func)();
                let stored = now();
                let ghost before = self.cache.last();
                let returned = self.cache.settle(stored, produced);
                proof {
                    assert(old(self).cache().fresh(read) is None);
                    assert(settled(before, stored, produced, self.cache.last(), returned));
                }
                returned
            },
        }
    }
}

/// A value refreshed at `at` is served at exactly the instants from `at`
/// to `at + max_age`: a call in that span does not run the producer, and
/// the first call after it does.
pub proof fn lemma_fresh_window<C>(cache: SingleFlight<C>, at: u128, value: C, now: u128)
    requires
        cache.last() == Some((at, value)),
    ensures
        cache.fresh(now) is Some <==> at <= now <= at + cache.max_age(),
        cache.fresh(now) is Some ==> cache.fresh(now) == Some(value),
{
}

/// A producer that fails leaves the cache as it was: what was fresh stays
/// fresh, and an empty cache stays empty, so the next call runs the
/// producer again.
pub proof fn lemma_failure_is_not_cached<C: Clone, E>(
    before: SingleFlight<C>,
    after: SingleFlight<C>,
    now: u128,
    error: E,
    returned: Result<C, E>,
    later: u128,
)
    requires
        after.max_age() == before.max_age(),
        settled(before.last(), now, Err::<C, E>(error), after.last(), returned),
    ensures
        returned == Err::<C, E>(error),
        after.fresh(later) == before.fresh(later),
{
}

} // verus!
