//! A hierarchical call-scope profiler.
//!
//! Named code regions are entered and left like a stack. Each distinct name
//! at each position of the call tree owns one scope, which accumulates
//! running statistics over all its completed calls. All durations are whole
//! nanoseconds and every derived figure is computed in integer arithmetic.

pub mod clock;
pub mod figures;
pub mod forest;
pub mod history;
pub mod laws;
pub mod name;
pub mod profiler;
pub mod report;
pub mod stats;
pub mod steps;
pub mod table;

pub use crate::name::ScopeName;
pub use crate::profiler::{Guard, Profiler};
use crate::report::report_text;
use vstd::prelude::*;

verus! {

/// Begins a call of the scope `name` in `profiler`. The guard that is
/// returned ends it.
pub fn enter(profiler: &mut Profiler, name: &'static str) -> (guard: Guard)
    requires
        old(profiler).wf(),
    ensures
        final(profiler).wf(),
        final(profiler)@ == old(profiler)@.entered(name@),
        final(profiler).window_start() == old(profiler).window_start(),
{
    profiler.enter(ScopeName::Borrowed(name))
}

/// Discards what `profiler` has accumulated and begins a new measurement
/// window. Calls that are open go on and end as usual.
pub fn reset(profiler: &mut Profiler)
    requires
        old(profiler).wf(),
    ensures
        final(profiler).wf(),
        final(profiler)@ == old(profiler)@.cleared(),
{
    profiler.reset();
}

/// The scope tree of `profiler` as a table, one row for each scope that has
/// completed a call, over the measurement window that ends now.
pub fn to_string(profiler: &Profiler) -> (text: String)
    requires
        profiler.wf(),
    ensures
        exists|total: nat| total <= u64::MAX && text@ == report_text(profiler@, total),
{
    profiler.to_string()
}

/// Appends the scope tree of `profiler`, as `to_string` gives it, to `out`.
pub fn write(profiler: &Profiler, out: &mut String)
    requires
        profiler.wf(),
    ensures
        exists|total: nat|
            total <= u64::MAX && final(out)@ == old(out)@ + report_text(profiler@, total),
{
    let text = profiler.to_string();
    let ghost total = choose|total: nat|
        total <= u64::MAX && text@ == report_text(profiler@, total);
    out.append(text.as_str());
    assert(total <= u64::MAX && out@ == old(out)@ + report_text(profiler@, total));
}

} // verus!
