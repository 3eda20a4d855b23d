//! What holds of the profiler over several calls.

use crate::forest::{fresh, lemma_lookup_finds, lemma_lookup_some, lookup, Forest};
use crate::steps::{lemma_cleared_wf, lemma_entered_wf, lemma_left_wf, lemma_resolved_is_idle};
use vstd::prelude::*;

verus! {

/// One call on a profiler.
pub ghost enum Event {
    Enter(Seq<char>),
    Leave(nat),
    Reset,
}

impl Event {
    /// A duration fits into 64 bits.
    pub open spec fn wf(self) -> bool {
        match self {
            Event::Leave(d) => d <= u64::MAX,
            _ => true,
        }
    }
}

/// The forest after one call.
pub open spec fn step(f: Forest, e: Event) -> Forest {
    match e {
        Event::Enter(name) => f.entered(name),
        Event::Leave(d) => f.left(d),
        Event::Reset => f.cleared(),
    }
}

/// The forest after the calls `events`, in that order.
pub open spec fn run(f: Forest, events: Seq<Event>) -> Forest
    decreases events.len(),
{
    if events.len() == 0 {
        f
    } else {
        step(run(f, events.drop_last()), events.last())
    }
}

/// Every sequence of calls keeps the forest well formed.
pub proof fn run_keeps_wf(f: Forest, events: Seq<Event>)
    requires
        f.wf(),
        forall|k: int| 0 <= k < events.len() ==> (#[trigger] events[k]).wf(),
    ensures
        run(f, events).wf(),
    decreases events.len(),
{
    if events.len() > 0 {
        run_keeps_wf(f, events.drop_last());
        let g = run(f, events.drop_last());
        match events.last() {
            Event::Enter(name) => lemma_entered_wf(g, name),
            Event::Leave(d) => lemma_left_wf(g, d),
            Event::Reset => lemma_cleared_wf(g),
        }
    }
}

/// A call is open exactly when the depth of the stack is positive.
pub proof fn depth_is_zero_without_cursor(f: Forest)
    requires
        f.wf(),
    ensures
        f.depth() == 0 <==> f.cursor is None,
{
}

/// A call that begins and ends leaves the cursor where it was, and the
/// scope that it went to is then found under its name.
pub proof fn call_returns_to_caller(f: Forest, name: Seq<char>, d: nat)
    requires
        f.wf(),
        d <= u64::MAX,
    ensures
        f.entered(name).left(d).wf(),
        f.entered(name).left(d).cursor == f.cursor,
        f.entered(name).left(d).nodes.len() == f.entered(name).nodes.len(),
        lookup(f.entered(name).left(d).nodes, f.entered(name).left(d).siblings(), name, 0)
            == Some(f.resolve(name)),
{
    let g = f.entered(name);
    let h = g.left(d);
    let id = f.resolve(name);
    lemma_entered_wf(f, name);
    lemma_left_wf(g, d);
    if lookup(f.nodes, f.siblings(), name, 0) is Some {
        lemma_resolved_is_idle(f, name);
        lemma_lookup_some(f.nodes, f.siblings(), name, 0);
    }
    if f.cursor is None {
        assert(g.roots.len() > 0);
    }
    match f.cursor {
        Some(c) => {
            assert(f.node_wf(c));
            assert(h.node_wf(c));
        },
        None => {},
    }
    let sib = h.siblings();
    let j = choose|j: int| 0 <= j < sib.len() && sib[j] == id;
    assert(0 <= j < sib.len() && sib[j] == id) by {
        if lookup(f.nodes, f.siblings(), name, 0) is Some {
            let j0 = choose|j: int|
                0 <= j < f.siblings().len() && #[trigger] f.siblings()[j] == id
                    && f.nodes[f.siblings()[j]].name == name;
            assert(sib =~= f.siblings());
            assert(sib[j0] == id);
        } else {
            assert(sib =~= f.siblings().push(id));
            assert(sib[sib.len() - 1] == id);
        }
    }
    assert(h.nodes[id].name == name);
    lemma_lookup_finds(h.nodes, sib, name, j, 0);
}

/// Sibling reuse. After a first call of `name` at some position, a second
/// call of the same name there goes to the same scope: it creates no scope,
/// leaves the list of siblings as it was, and the scope records one call
/// more.
pub proof fn second_call_reuses_scope(f: Forest, name: Seq<char>, d1: nat, d2: nat)
    requires
        f.wf(),
        d1 <= u64::MAX,
        d2 <= u64::MAX,
    ensures
        ({
            let once = f.entered(name).left(d1);
            let twice = once.entered(name).left(d2);
            let id = f.resolve(name);
            &&& once.resolve(name) == id
            &&& twice.nodes.len() == once.nodes.len()
            &&& twice.roots == once.roots
            &&& twice.cursor == once.cursor
            &&& twice.siblings() == once.siblings()
            &&& forall|i: int|
                0 <= i < once.nodes.len() ==> (#[trigger] twice.nodes[i]).children
                    == once.nodes[i].children
            &&& twice.nodes[id].stats == once.nodes[id].stats.recorded(d2)
            &&& forall|i: int|
                0 <= i < once.nodes.len() && i != id ==> (#[trigger] twice.nodes[i])
                    == once.nodes[i]
        }),
{
    let once = f.entered(name).left(d1);
    call_returns_to_caller(f, name, d1);
    call_returns_to_caller(once, name, d2);
    lemma_resolved_is_idle(once, name);
}

/// The calls that have begun in `events` less those that have ended.
pub open spec fn balance(events: Seq<Event>) -> int
    decreases events.len(),
{
    if events.len() == 0 {
        0
    } else {
        balance(events.drop_last()) + match events.last() {
            Event::Enter(_) => 1int,
            Event::Leave(_) => -1int,
            Event::Reset => 0int,
        }
    }
}

/// Whether the calls `events` are enters and leaves only and, run from
/// `f`, have an open call before each of them.
pub open spec fn stays_open(f: Forest, events: Seq<Event>) -> bool {
    forall|k: int|
        0 <= k < events.len() ==> {
            &&& (#[trigger] events[k]).wf()
            &&& events[k] != Event::Reset
            &&& run(f, events.take(k)).cursor is Some
        }
}

/// Reset with open calls. The reset leaves no root and keeps every open
/// call open. While a call that was open at the reset is still open, each
/// call ends as usual and none creates a root. So when as many calls more
/// have ended than have begun as were open at the reset, the forest has no
/// open call and is empty.
pub proof fn reset_leaves_no_roots(f: Forest, events: Seq<Event>)
    requires
        f.wf(),
        stays_open(f.cleared(), events),
    ensures
        f.cleared().roots.len() == 0,
        f.cleared().cursor == f.cursor,
        run(f.cleared(), events).wf(),
        run(f.cleared(), events).roots.len() == 0,
        run(f.cleared(), events).depth() == f.depth() + balance(events),
        f.depth() + balance(events) == 0 <==> run(f.cleared(), events).cursor is None,
        f.depth() + balance(events) == 0 ==> run(f.cleared(), events) == Forest::empty(),
    decreases events.len(),
{
    lemma_cleared_wf(f);
    if events.len() > 0 {
        let init = events.drop_last();
        assert forall|k: int| 0 <= k < init.len() implies {
            &&& (#[trigger] init[k]).wf()
            &&& init[k] != Event::Reset
            &&& run(f.cleared(), init.take(k)).cursor is Some
        } by {
            assert(init[k] == events[k]);
            assert(init.take(k) =~= events.take(k));
        }
        reset_leaves_no_roots(f, init);
        let g = run(f.cleared(), init);
        assert(events.take(events.len() - 1) =~= init);
        assert(events[events.len() - 1].wf());
        match events.last() {
            Event::Enter(name) => lemma_entered_wf(g, name),
            Event::Leave(d) => lemma_left_wf(g, d),
            Event::Reset => {},
        }
    }
}

/// No scope comes back. In a forest without roots and without an open
/// call, whatever scopes were cut off before, a call of any name goes to a
/// new scope, which becomes the only root and has completed no call.
pub proof fn scope_after_unwinding_is_new(f: Forest, name: Seq<char>)
    requires
        f.wf(),
        f.roots.len() == 0,
        f.cursor is None,
    ensures
        f.resolve(name) == f.nodes.len(),
        f.entered(name).roots == seq![f.nodes.len() as int],
        f.entered(name).nodes[f.nodes.len() as int] == fresh(name, None),
        f.entered(name).nodes.len() == f.nodes.len() + 1,
{
    assert(f.entered(name).roots =~= seq![f.nodes.len() as int]);
}

/// Each call that ends closes one open call, and each call that begins
/// opens one: the stack that was open at a reset has fully unwound when as
/// many calls more have ended than have begun.
pub proof fn depth_counts_open_calls(f: Forest, e: Event)
    requires
        f.wf(),
        e.wf(),
    ensures
        match e {
            Event::Enter(_) => step(f, e).depth() == f.depth() + 1,
            Event::Leave(_) => step(f, e).depth() == if f.depth() == 0 {
                0
            } else {
                f.depth() - 1
            },
            Event::Reset => step(f, e).depth() == f.depth(),
        },
{
    match e {
        Event::Enter(name) => lemma_entered_wf(f, name),
        Event::Leave(d) => lemma_left_wf(f, d),
        Event::Reset => lemma_cleared_wf(f),
    }
}

} // verus!
