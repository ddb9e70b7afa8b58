//! Observer-pattern hub for sharing messages and events across the app.

use vstd::prelude::*;

verus! {

/// Holds the registered subscriber callbacks and hands each sent message to
/// every one of them. A subscriber takes a topic and a payload. The callback
/// type is a parameter of the bus: a bus over plain function values or over
/// one closure type both work.
pub struct MessageBus<F> {
    pub subscribers: Vec<F>,
}

impl<F: Fn(&str, &str)> MessageBus<F> {
    /// An empty bus with no subscribers.
    pub fn new() -> (r: MessageBus<F>)
        ensures
            r.subscribers@ == Seq::<F>::empty(),
    {
        let bus = MessageBus { subscribers: Vec::new() };
        proof {
            assert(bus.subscribers@ =~= Seq::<F>::empty());
        }
        bus
    }

    /// Adds `update` to the subscriber list; every message sent from now on
    /// reaches it.
    pub fn register(&mut self, update: F)
        ensures
            final(self).subscribers@ == old(self).subscribers@.push(update),
    {
        self.subscribers.push(update);
    }

    /// Drops a subscriber. Callback values cannot be told apart once stored,
    /// so the bus is left unchanged; a caller that needs turnover builds a
    /// fresh bus instead.
    pub fn unregister(&mut self, update: F)
        ensures
            final(self).subscribers@ == old(self).subscribers@,
    {
    }

    /// Hands `topic` and `payload` to every registered subscriber, in
    /// registration order.
    pub fn send_message(&self, topic: &str, payload: &str)
        requires
            forall|i: int|
                0 <= i < self.subscribers@.len() ==> call_requires(
                    #[trigger] self.subscribers@[i],
                    (topic, payload),
                ),
    {
        let n: usize = self.subscribers.len();
        let mut i: usize = 0;
        while i < n
            invariant
                n == self.subscribers@.len(),
                0 <= i <= n,
                forall|m: int|
                    0 <= m < n ==> call_requires(
                        #[trigger] self.subscribers@[m],
                        (topic, payload),
                    ),
            decreases n - i,
        {
            let f = &self.subscribers[i];
            f(topic, payload);
            i += 1;
        }
    }

    /// Polling side of the bus. Messages are pushed to the callbacks as they
    /// are sent, so there is never anything held back to fetch.
    pub fn get_message(&self) {
    }
}

} // verus!
