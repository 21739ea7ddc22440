//! The broker's wake-up signal: a notifier that publishing wakes, with a
//! count of the wake-ups made through it.
use std::sync::Arc;
use tokio::sync::Notify;
use vstd::prelude::*;

verus! {

#[verifier::external_type_specification]
#[verifier::external_body]
pub struct ExNotify(Notify);

/// `tokio::sync::Notify::new`: makes a notifier with no stored permit; it
/// reads and changes no state of the library, so nothing is stated.
pub assume_specification[ Notify::new ]() -> Notify;

/// A notifier, and how many times it has been woken through this signal.
/// The count moves only when `wake` wakes the notifier.
pub struct Signal {
    notify: Arc<Notify>,
    count: Ghost<nat>,
}

impl Signal {
    /// The notifier waiting tasks register with.
    pub closed spec fn notifier(&self) -> Arc<Notify> {
        self.notify
    }

    /// How many times the notifier has been woken through this signal.
    pub closed spec fn wakeups(&self) -> nat {
        self.count@
    }

    /// A fresh notifier, never woken.
    pub fn new() -> (s: Signal)
        ensures
            s.wakeups() == 0,
    {
        Signal { notify: Arc::new(Notify::new()), count: Ghost(0) }
    }

    /// The notifier, for tasks to wait on.
    pub fn handle(&self) -> (n: &Arc<Notify>)
        ensures
            *n == self.notifier(),
    {
        &self.notify
    }

    /// `tokio::sync::Notify::notify_waiters`: wakes every task waiting on
    /// the notifier. The wake-up is counted; the notifier stays the same.
    #[verifier::external_body]
    pub(crate) fn wake(&mut self)
        ensures
            final(self).notifier() == old(self).notifier(),
            final(self).wakeups() == old(self).wakeups() + 1,
    {
        self.notify.notify_waiters()
    }
}

} // verus!
