//! The decision core of the cross-runtime stream bridge: batches are
//! produced by a driver task on one scheduler and travel through a bounded
//! channel to a consumer on another. Per consumer poll the bridge polls
//! the driver until it completes, then drains the channel; the consumer
//! observes the end of the stream only after both have finished.

use vstd::prelude::*;

verus! {

/// What polling the driver future reported.
#[derive(Clone, Copy, PartialEq, Eq, Structural, Debug)]
pub enum DriverPoll {
    Ready,
    Pending,
}

/// What polling the channel receiver reported.
pub enum ChannelPoll<T> {
    Item(T),
    Closed,
    Pending,
}

/// What one poll of the bridge yields to the consumer.
pub enum BridgeOutcome<T> {
    Item(T),
    Finished,
    NotReady,
}

/// The bridge's state across polls: whether the driver future has
/// completed, and whether the channel has reported closure.
pub struct BridgeState {
    pub driver_ready: bool,
    pub inner_done: bool,
}

impl BridgeState {
    pub fn new() -> (r: Self)
        ensures
            r.driver_ready == false,
            r.inner_done == false,
    {
        BridgeState { driver_ready: false, inner_done: false }
    }

    /// One consumer poll: `driver` is what polling the driver returned
    /// (polled only while it was not yet ready), `chan` what polling the
    /// channel returned (polled only while the channel had not closed).
    ///
    /// The consumer sees the end of the stream only when the driver has
    /// completed and the channel has drained, so the driver always runs
    /// to completion and its teardown effects take place; an item passes
    /// through unchanged; anything else leaves the consumer pending.
    pub fn poll_step<T>(&mut self, driver: DriverPoll, chan: ChannelPoll<T>) -> (r: BridgeOutcome<
        T,
    >)
        ensures
            final(self).driver_ready == (old(self).driver_ready || driver is Ready),
            old(self).inner_done ==> (r is Finished <==> final(self).driver_ready),
            old(self).inner_done ==> final(self).inner_done,
            !old(self).inner_done ==> (match chan {
                ChannelPoll::Item(x) => r == BridgeOutcome::Item(x) && final(self).inner_done
                    == old(self).inner_done,
                ChannelPoll::Closed => final(self).inner_done && (r is Finished
                    <==> final(self).driver_ready),
                ChannelPoll::Pending => r is NotReady && final(self).inner_done
                    == old(self).inner_done,
            }),
            r is Finished ==> final(self).driver_ready && final(self).inner_done,
            r is NotReady ==> !(final(self).driver_ready && final(self).inner_done),
    {
        if !self.driver_ready {
            match driver {
                DriverPoll::Ready => {
                    self.driver_ready = true;
                },
                DriverPoll::Pending => {},
            }
        }
        if self.inner_done {
            if self.driver_ready {
                BridgeOutcome::Finished
            } else {
                BridgeOutcome::NotReady
            }
        } else {
            match chan {
                ChannelPoll::Pending => BridgeOutcome::NotReady,
                ChannelPoll::Closed => {
                    self.inner_done = true;
                    if self.driver_ready {
                        BridgeOutcome::Finished
                    } else {
                        BridgeOutcome::NotReady
                    }
                },
                ChannelPoll::Item(x) => BridgeOutcome::Item(x),
            }
        }
    }
}

} // verus!
