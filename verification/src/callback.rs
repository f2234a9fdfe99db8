//! Subscriber callbacks as the registry stores them.

use std::rc::Rc;
use vstd::prelude::*;

verus! {

/// Something that can receive a published message: the leaf topic that was
/// published and the data.
///
/// Every `Fn(&str, &D)` closure is a subscriber.
pub trait Subscriber<D> {
    /// Deliver one message.
    fn notify(&self, topic: &str, data: &D);
}

/// Calls the closure `f` with `(topic, data)`.
///
/// Trusted: this is the call of `Fn::call` on a closure the user supplied; it
/// runs user code, so nothing is stated of what it does.
#[verifier::external_body]
fn call_closure<D, F: Fn(&str, &D)>(f: &F, topic: &str, data: &D) {
    f(topic, data)
}

impl<D, F: Fn(&str, &D)> Subscriber<D> for F {
    fn notify(&self, topic: &str, data: &D) {
        call_closure(self, topic, data)
    }
}

/// A stored subscriber. The registry hands out shared copies, so delivery can
/// go on while the registry changes.
pub type Callback<D> = Rc<Box<dyn Subscriber<D>>>;

/// Wraps a closure as a stored subscriber.
///
/// The result erases the closure's type, so no contract can compare it with
/// `func`: calling it runs `func` with the same arguments.
pub fn callback_from<D, F: Fn(&str, &D) + 'static>(func: F) -> Callback<D> {
    let boxed: Box<dyn Subscriber<D>> = Box::new(func);
    Rc::new(boxed)
}

/// Another handle to the same subscriber.
///
/// Trusted: `Rc::clone`, which returns a pointer to the same allocation; Verus
/// models an `Rc` by the value it points to, so the copy equals `cb`.
#[verifier::external_body]
pub(crate) fn share<D>(cb: &Callback<D>) -> (copy: Callback<D>)
    ensures
        copy == *cb,
{
    Rc::clone(cb)
}

} // verus!
