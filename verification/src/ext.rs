//! Bindings to the outside crates and to the parts of `std` that carry no
//! specification. Each item here is trusted: its contract states only what
//! the callee's source or documentation plainly shows.

use vstd::prelude::*;

verus! {

/// The lowercased form of a character sequence, as `str::to_lowercase`
/// computes it. The result depends on the characters alone, so it is given
/// a name rather than written out.
pub uninterp spec fn lower_of(s: Seq<char>) -> Seq<char>;

/// Relies on `str::to_lowercase`: returns the Unicode lowercase form of the
/// input, a function of the input characters alone.
#[verifier::external_body]
pub(crate) fn lowercase(s: &str) -> (r: String)
    ensures
        r@ == lower_of(s@),
{
    s.to_lowercase()
}

/// Relies on `uuid::Uuid::new_v4` and its hyphenated `Display` form: a
/// freshly drawn random version-4 UUID. Nothing is promised of the value;
/// callers state their results relative to whatever identifier came back.
#[verifier::external_body]
pub(crate) fn fresh_worker_id() -> String {
    uuid::Uuid::new_v4().to_string()
}

/// Relies on `num_cpus::get`: the number of logical CPUs available to the
/// process. Its documentation promises the result is at least 1.
#[verifier::external_body]
pub(crate) fn cpu_count() -> (n: usize)
    ensures
        1 <= n,
{
    num_cpus::get()
}

/// Relies on `tokio::sync::broadcast::channel`: builds a bounded broadcast
/// channel and hands back its sending half (the initial receiving half is
/// dropped; subscribers can be added later from the sender). The callee
/// panics when the capacity is zero or above `usize::MAX / 2`, so those
/// capacities are excluded here.
#[verifier::external_body]
pub(crate) fn new_update_channel(capacity: usize) -> tokio::sync::broadcast::Sender<String>
    requires
        1 <= capacity <= usize::MAX / 2,
{
    tokio::sync::broadcast::channel(capacity).0
}

/// Relies on `tokio::sync::broadcast::Sender::send`: a non-blocking,
/// best-effort broadcast. The result reports whether any receiver was
/// subscribed at send time; nothing is promised of delivery, so nothing
/// more is stated.
#[verifier::external_body]
pub(crate) fn send_update(sender: &tokio::sync::broadcast::Sender<String>, task_id: String) -> bool {
    sender.send(task_id).is_ok()
}

#[verifier::external_type_specification]
#[verifier::external_body]
#[verifier::reject_recursive_types(T)]
pub struct ExSender<T>(tokio::sync::broadcast::Sender<T>);

} // verus!
