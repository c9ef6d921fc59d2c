//! Cancellation handle: a shared flag that an outside owner may raise at
//! any time, polled by the search once per driver iteration.

use vstd::prelude::*;

verus! {

/// A shared cancellation flag. Copies made with `duplicate` share one flag.
pub struct Stopper {
    flag: std::sync::Arc<std::sync::atomic::AtomicBool>,
}

/// Relies on std::sync::atomic::AtomicBool::load: reads the flag. Another
/// owner may raise it at any time, so nothing is promised of the result.
#[verifier::external_body]
fn flag_load(flag: &std::sync::Arc<std::sync::atomic::AtomicBool>) -> bool {
    flag.load(std::sync::atomic::Ordering::SeqCst)
}

/// Relies on std::sync::atomic::AtomicBool::store: raises the flag.
#[verifier::external_body]
fn flag_raise(flag: &std::sync::Arc<std::sync::atomic::AtomicBool>) {
    flag.store(true, std::sync::atomic::Ordering::SeqCst)
}

/// Relies on std::sync::Arc::clone: a second handle to the same flag.
#[verifier::external_body]
fn flag_share(
    flag: &std::sync::Arc<std::sync::atomic::AtomicBool>,
) -> std::sync::Arc<std::sync::atomic::AtomicBool> {
    std::sync::Arc::clone(flag)
}

impl Stopper {
    /// A fresh, unraised handle.
    pub fn new() -> Stopper {
        Stopper { flag: std::sync::Arc::new(std::sync::atomic::AtomicBool::new(false)) }
    }

    /// A second handle sharing this handle's flag.
    pub fn duplicate(&self) -> Stopper {
        Stopper { flag: flag_share(&self.flag) }
    }

    /// Request cancellation.
    pub fn send_stop(&self) {
        flag_raise(&self.flag);
    }

    /// Whether cancellation has been requested.
    pub fn is_stop(&self) -> bool {
        flag_load(&self.flag)
    }
}

} // verus!
