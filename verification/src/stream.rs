//! Two streams read side by side, each as fast as it yields.
//!
//! The zipped stream yields as soon as either side has an item, with `None`
//! in the place of the side that has none at that moment, and ends when
//! both sides have ended. Polling is the caller's; what to make of two
//! polls is decided here.
use vstd::prelude::*;

verus! {

/// What one poll of a stream gave.
#[derive(Debug, PartialEq, Eq)]
pub enum Polled<T> {
    /// Nothing yet.
    Pending,
    /// An item, or `None` at the end of the stream.
    Ready(Option<T>),
}

/// Two streams and whether each has ended.
pub struct GreedyZip<S1, S2> {
    stream1: S1,
    stream2: S2,
    done1: bool,
    done2: bool,
}

/// What a side that may have ended before gives: once ended it gives the
/// end again, whatever its stream would say.
pub open spec fn fused<T>(done: bool, polled: Polled<T>) -> Polled<T> {
    if done {
        Polled::Ready(None)
    } else {
        polled
    }
}

/// Whether a side has ended after a poll that gave `polled`.
pub open spec fn ended<T>(done: bool, polled: Polled<T>) -> bool {
    done || polled == Polled::<T>::Ready(None)
}

/// What two polls make together: every item at hand, the end once both
/// sides have ended, and nothing yet otherwise.
pub open spec fn zipped<A, B>(first: Polled<A>, second: Polled<B>) -> Polled<
    (Option<A>, Option<B>),
> {
    match (first, second) {
        (Polled::Ready(Some(a)), Polled::Ready(Some(b))) => Polled::Ready(
            Some((Some(a), Some(b))),
        ),
        (Polled::Ready(Some(a)), _) => Polled::Ready(Some((Some(a), None))),
        (_, Polled::Ready(Some(b))) => Polled::Ready(Some((None, Some(b)))),
        (Polled::Ready(None), Polled::Ready(None)) => Polled::Ready(None),
        _ => Polled::Pending,
    }
}

/// The bounds on what is left of the zipped stream, from the bounds of its
/// sides: at least the lesser of the lower bounds; at most the sum of the
/// upper bounds, unless that sum is beyond `usize`, and where only one
/// side has an upper bound, that bound.
pub open spec fn zipped_hint(
    first: (usize, Option<usize>),
    second: (usize, Option<usize>),
) -> (usize, Option<usize>) {
    (
        if first.0 <= second.0 {
            first.0
        } else {
            second.0
        },
        match (first.1, second.1) {
            (Some(a), Some(b)) => if a + b <= usize::MAX {
                Some((a + b) as usize)
            } else {
                None
            },
            (Some(a), None) => Some(a),
            (None, Some(b)) => Some(b),
            (None, None) => None,
        },
    )
}

impl<S1, S2> GreedyZip<S1, S2> {
    /// The first stream.
    pub closed spec fn first(&self) -> S1 {
        self.stream1
    }

    /// The second stream.
    pub closed spec fn second(&self) -> S2 {
        self.stream2
    }

    /// Whether the first stream has ended.
    pub closed spec fn first_done(&self) -> bool {
        self.done1
    }

    /// Whether the second stream has ended.
    pub closed spec fn second_done(&self) -> bool {
        self.done2
    }

    /// The two streams side by side, neither ended.
    pub fn new(stream1: S1, stream2: S2) -> (zip: Self)
        ensures
            zip.first() == stream1,
            zip.second() == stream2,
            !zip.first_done(),
            !zip.second_done(),
    {
        GreedyZip { stream1, stream2, done1: false, done2: false }
    }

    /// The two streams, for the caller to poll or to close.
    pub fn get_mut(&mut self) -> (streams: (&mut S1, &mut S2))
        ensures
            *streams.0 == old(self).first(),
            *streams.1 == old(self).second(),
            final(self).first() == *final(streams.0),
            final(self).second() == *final(streams.1),
            final(self).first_done() == old(self).first_done(),
            final(self).second_done() == old(self).second_done(),
    {
        (&mut self.stream1, &mut self.stream2)
    }

    /// Whether the first stream has ended: an ended stream is not polled
    /// again.
    pub fn is_first_done(&self) -> (done: bool)
        ensures
            done == self.first_done(),
    {
        self.done1
    }

    /// Whether the second stream has ended.
    pub fn is_second_done(&self) -> (done: bool)
        ensures
            done == self.second_done(),
    {
        self.done2
    }

    /// Takes in one poll of each side and says what the zipped stream
    /// yields. A side that has ended counts as ended whatever is handed in
    /// for it.
    pub fn poll_next<A, B>(&mut self, first: Polled<A>, second: Polled<B>) -> (out: Polled<
        (Option<A>, Option<B>),
    >)
        ensures
            out == zipped(
                fused(old(self).first_done(), first),
                fused(old(self).second_done(), second),
            ),
            final(self).first_done() == ended(old(self).first_done(), first),
            final(self).second_done() == ended(old(self).second_done(), second),
            final(self).first() == old(self).first(),
            final(self).second() == old(self).second(),
    {
        let first = if self.done1 {
            Polled::Ready(None)
        } else {
            first
        };
        let second = if self.done2 {
            Polled::Ready(None)
        } else {
            second
        };
        if let Polled::Ready(None) = &first {
            self.done1 = true;
        }
        if let Polled::Ready(None) = &second {
            self.done2 = true;
        }
        match (first, second) {
            (Polled::Ready(Some(a)), Polled::Ready(Some(b))) => Polled::Ready(
                Some((Some(a), Some(b))),
            ),
            (Polled::Ready(Some(a)), _) => Polled::Ready(Some((Some(a), None))),
            (_, Polled::Ready(Some(b))) => Polled::Ready(Some((None, Some(b)))),
            (Polled::Ready(None), Polled::Ready(None)) => Polled::Ready(None),
            _ => Polled::Pending,
        }
    }

    /// The bounds on what is left, from the bounds that the two sides give.
    /// An ended side has nothing left.
    pub fn size_hint(&self, first: (usize, Option<usize>), second: (usize, Option<usize>)) -> (hint:
        (usize, Option<usize>))
        ensures
            hint == zipped_hint(
                if self.first_done() {
                    (0usize, Some(0usize))
                } else {
                    first
                },
                if self.second_done() {
                    (0usize, Some(0usize))
                } else {
                    second
                },
            ),
    {
        let (lower1, upper1) = if self.done1 {
            (0, Some(0))
        } else {
            first
        };
        let (lower2, upper2) = if self.done2 {
            (0, Some(0))
        } else {
            second
        };
        let lower = if lower1 <= lower2 {
            lower1
        } else {
            lower2
        };
        let upper = match (upper1, upper2) {
            (Some(u1), Some(u2)) => if u1 <= usize::MAX - u2 {
                Some(u1 + u2)
            } else {
                None
            },
            (Some(u1), None) => Some(u1),
            (None, Some(u2)) => Some(u2),
            (None, None) => None,
        };
        (lower, upper)
    }
}

/// The two streams side by side.
pub fn greedy_zip<S1, S2>(stream1: S1, stream2: S2) -> (zip: GreedyZip<S1, S2>)
    ensures
        zip.first() == stream1,
        zip.second() == stream2,
        !zip.first_done(),
        !zip.second_done(),
{
    GreedyZip::new(stream1, stream2)
}

/// The zipped stream never yields an item without a side: what it yields
/// holds an item of at least one stream.
pub proof fn lemma_zipped_item_has_a_side<A, B>(first: Polled<A>, second: Polled<B>)
    ensures
        zipped(first, second) matches Polled::Ready(Some(pair)) ==> pair.0 is Some || pair.1
            is Some,
        zipped(first, second) == Polled::<(Option<A>, Option<B>)>::Ready(None) <==> first
            == Polled::<A>::Ready(None) && second == Polled::<B>::Ready(None),
{
}

} // verus!
