//! A notification primitive for single-threaded cooperative schedulers.
//!
//! An [`Event`] keeps a registry of listeners in registration (FIFO) order.
//! Producers deliver notification credits with [`Event::notify`],
//! [`Event::notify_additional`] and [`Event::notify_all`]; each credit settles
//! on the earliest still-waiting listener. A released listener passes an
//! unconsumed credit on to the next waiting listener, so credits are conserved
//! across voluntary abandonment.
//!
//! The state is owned by a single logical owner and every operation takes it
//! by (mutable) reference, so reentrant use — say, notifying from inside a
//! resumption callback that the same notification triggered — is rejected by
//! the borrow checker instead of by a runtime exclusivity check.

pub mod event;
pub mod laws;
pub mod model;

pub use event::Event;
pub use event::EventListener;
