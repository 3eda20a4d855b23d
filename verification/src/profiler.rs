//! The profiler: an arena of scopes, the list of its roots and the cursor.

use crate::clock::{clamp_nanos, clock_now, nanos_since};
use crate::forest::{fresh, lookup, Forest, ScopeModel};
use crate::name::ScopeName;
use crate::stats::Stats;
use crate::steps::{lemma_cleared_wf, lemma_entered_wf, lemma_left_wf, lemma_resolved_is_idle};
use instant::Instant;
use vstd::prelude::*;

verus! {

/// One named call site at one position of the call tree.
pub struct Scope {
    name: ScopeName,
    parent: Option<usize>,
    children: Vec<usize>,
    active: bool,
    stats: Stats,
}

/// A list of arena positions as mathematical integers.
pub open spec fn positions(list: Seq<usize>) -> Seq<int> {
    list.map_values(|c: usize| c as int)
}

/// An optional arena position as a mathematical integer.
pub open spec fn position(p: Option<usize>) -> Option<int> {
    match p {
        Some(i) => Some(i as int),
        None => None,
    }
}

impl View for Scope {
    type V = ScopeModel;

    closed spec fn view(&self) -> ScopeModel {
        ScopeModel {
            name: self.name@,
            parent: position(self.parent),
            children: positions(self.children@),
            active: self.active,
            stats: self.stats@,
        }
    }
}

impl Scope {
    /// A scope called `name` below `parent` that has never been called.
    pub fn new(name: ScopeName, parent: Option<usize>) -> (scope: Scope)
        ensures
            scope@ == (ScopeModel { active: false, ..fresh(name@, position(parent)) }),
    {
        let scope = Scope { name, parent, children: Vec::new(), active: false, stats: Stats::new() };
        assert(scope@.children =~= Seq::<int>::empty());
        scope
    }

    /// Opens a call of this scope, which must not be open already.
    pub fn enter(&mut self) -> (guard: Guard)
        requires
            !old(self)@.active,
        ensures
            final(self)@ == (ScopeModel { active: true, ..old(self)@ }),
    {
        self.active = true;
        Guard::enter()
    }

    /// Closes the open call of this scope after `duration` nanoseconds.
    pub fn leave(&mut self, duration: u64)
        requires
            old(self)@.active,
            old(self)@.stats.wf(),
        ensures
            final(self)@ == (ScopeModel {
                active: false,
                stats: old(self)@.stats.recorded(duration as nat),
                ..old(self)@
            }),
    {
        self.active = false;
        self.stats.record(duration);
    }

    /// The name of the scope.
    pub fn name(&self) -> (name: &ScopeName)
        ensures
            name@ == self@.name,
    {
        &self.name
    }

    /// The scope that this one was called from, if any.
    pub fn parent(&self) -> (parent: Option<usize>)
        ensures
            position(parent) == self@.parent,
    {
        self.parent
    }

    /// The scopes called from this one, in the order of their first call.
    pub fn children(&self) -> (children: &Vec<usize>)
        ensures
            positions(children@) == self@.children,
    {
        &self.children
    }

    /// Whether a call of this scope is open.
    pub fn is_active(&self) -> (active: bool)
        ensures
            active == self@.active,
    {
        self.active
    }

    /// The number of completed calls.
    pub fn num_calls(&self) -> (n: u64)
        ensures
            n == self@.stats.calls,
    {
        self.stats.num_calls()
    }

    /// The running statistics of the completed calls.
    pub fn stats(&self) -> (stats: &Stats)
        ensures
            stats@ == self@.stats,
    {
        &self.stats
    }
}

/// The token of one open call. It holds the time at which the call began
/// and cannot be copied: each call is ended once.
pub struct Guard {
    enter_time: Instant,
}

impl Guard {
    /// A guard that begins now.
    pub(crate) fn enter() -> Guard {
        Guard { enter_time: clock_now() }
    }

    /// The nanoseconds that have passed since the guard was made.
    pub fn elapsed(&self) -> u64 {
        clamp_nanos(nanos_since(&self.enter_time))
    }

    /// Ends the call: the innermost open call of `profiler` is closed with
    /// the time that has passed since the guard was made. Returns whether a
    /// call was open.
    pub fn end(self, profiler: &mut Profiler) -> (was_open: bool)
        requires
            old(profiler).wf(),
        ensures
            final(profiler).wf(),
            was_open == (old(profiler)@.cursor is Some),
            exists|d: nat| d <= u64::MAX && final(profiler)@ == old(profiler)@.left(d),
            final(profiler).window_start() == old(profiler).window_start(),
    {
        let d: u64 = self.elapsed();
        profiler.leave(d)
    }
}

/// The scope tree of one thread and the scope that is being timed.
pub struct Profiler {
    nodes: Vec<Scope>,
    roots: Vec<usize>,
    current: Option<usize>,
    start_time: Instant,
}

impl View for Profiler {
    type V = Forest;

    closed spec fn view(&self) -> Forest {
        Forest {
            nodes: self.nodes@.map_values(|s: Scope| s@),
            roots: positions(self.roots@),
            cursor: position(self.current),
        }
    }
}

/// Looks `name` up among the scopes of `list`.
fn find(nodes: &Vec<Scope>, list: &Vec<usize>, name: &ScopeName) -> (found: Option<usize>)
    requires
        forall|k: int| 0 <= k < list.len() ==> (#[trigger] list[k]) < nodes.len(),
    ensures
        position(found) == lookup(
            nodes@.map_values(|s: Scope| s@),
            positions(list@),
            name@,
            0,
        ),
        found is Some ==> found->0 < nodes.len(),
{
    let ghost model = nodes@.map_values(|s: Scope| s@);
    let ghost ids = positions(list@);
    let mut k: usize = 0;
    while k < list.len()
        invariant
            0 <= k <= list.len(),
            model == nodes@.map_values(|s: Scope| s@),
            ids == positions(list@),
            forall|j: int| 0 <= j < list.len() ==> (#[trigger] list[j]) < nodes.len(),
            lookup(model, ids, name@, 0) == lookup(model, ids, name@, k as int),
        decreases list.len() - k,
    {
        let id: usize = list[k];
        if nodes[id].name.same_as(name) {
            return Some(id);
        }
        k += 1;
    }
    None
}

impl Profiler {
    /// The invariant of the profiler, stated on its model.
    pub open spec fn wf(&self) -> bool {
        self@.wf()
    }

    /// The point in time at which the current measurement window began:
    /// when the profiler was made or last reset.
    pub closed spec fn window_start(&self) -> Instant {
        self.start_time
    }

    /// A profiler with no scope, whose measurement window begins now.
    pub fn new() -> (profiler: Profiler)
        ensures
            profiler@ == Forest::empty(),
            profiler.wf(),
    {
        let profiler = Profiler {
            nodes: Vec::new(),
            roots: Vec::new(),
            current: None,
            start_time: clock_now(),
        };
        assert(profiler@.nodes =~= Seq::<ScopeModel>::empty());
        assert(profiler@.roots =~= Seq::<int>::empty());
        profiler
    }

    /// Begins a call of `name` below the innermost open call, or at top
    /// level when none is open. The call goes to the scope of that name at
    /// that position; where there is none yet, a new one is appended.
    pub fn enter(&mut self, name: ScopeName) -> (guard: Guard)
        requires
            old(self).wf(),
        ensures
            final(self).wf(),
            final(self)@ == old(self)@.entered(name@),
            final(self).window_start() == old(self).window_start(),
    {
        let ghost before = self@;
        let ghost text = name@;
        proof {
            lemma_entered_wf(before, text);
            match before.cursor {
                Some(c) => {
                    assert(before.node_wf(c));
                },
                None => {},
            }
        }
        let found = match self.current {
            Some(c) => {
                assert forall|k: int| 0 <= k < self.nodes[c as int].children.len() implies (
                #[trigger] self.nodes[c as int].children[k]) < self.nodes.len() by {
                    assert(before.nodes[c as int].children[k] < before.nodes.len());
                }
                find(&self.nodes, &self.nodes[c].children, &name)
            },
            None => {
                assert forall|k: int| 0 <= k < self.roots.len() implies (#[trigger] self.roots[k])
                    < self.nodes.len() by {
                    assert(before.roots[k] < before.nodes.len());
                }
                find(&self.nodes, &self.roots, &name)
            },
        };
        let guard = match found {
            Some(id) => {
                proof {
                    lemma_resolved_is_idle(before, text);
                }
                self.nodes[id].enter()
            },
            None => {
                let id: usize = self.nodes.len();
                self.nodes.push(Scope::new(name, self.current));
                match self.current {
                    Some(c) => {
                        self.nodes[c].children.push(id);
                        assert(self.nodes[c as int]@.children =~= before.nodes[c as int].children.push(
                            id as int,
                        ));
                    },
                    None => {
                        self.roots.push(id);
                    },
                }
                self.current = Some(id);
                self.nodes[id].enter()
            },
        };
        if let Some(id) = found {
            self.current = Some(id);
        }
        assert(self@.nodes =~= before.entered(text).nodes);
        assert(self@.roots =~= before.entered(text).roots);
        guard
    }

    /// Ends the innermost open call after `duration` nanoseconds: its scope
    /// records the call and the cursor moves to its parent. Where that was
    /// the last open call and there are no roots, the scopes that a reset
    /// had cut off are dropped. With no open call nothing changes. Returns
    /// whether a call was open.
    pub fn leave(&mut self, duration: u64) -> (was_open: bool)
        requires
            old(self).wf(),
        ensures
            final(self).wf(),
            final(self)@ == old(self)@.left(duration as nat),
            final(self).window_start() == old(self).window_start(),
            was_open == (old(self)@.cursor is Some),
    {
        let ghost before = self@;
        proof {
            lemma_left_wf(before, duration as nat);
        }
        match self.current {
            Some(c) => {
                proof {
                    assert(before.node_wf(c as int));
                }
                self.nodes[c].leave(duration);
                self.current = self.nodes[c].parent;
                if self.current.is_none() && self.roots.len() == 0 {
                    self.nodes.clear();
                }
                assert(self@.nodes =~= before.left(duration as nat).nodes);
                assert(self@.roots =~= before.left(duration as nat).roots);
                true
            },
            None => false,
        }
    }

    /// Discards every root and begins a new measurement window. The cursor
    /// stays: calls that are open go on, cut off from the roots.
    pub fn reset(&mut self)
        requires
            old(self).wf(),
        ensures
            final(self).wf(),
            final(self)@ == old(self)@.cleared(),
    {
        proof {
            lemma_cleared_wf(self@);
        }
        self.roots.clear();
        if self.current.is_none() {
            self.nodes.clear();
        }
        self.start_time = clock_now();
        assert(self@.nodes =~= old(self)@.cleared().nodes);
        assert(self@.roots =~= old(self)@.cleared().roots);
    }

    /// The nanoseconds that have passed in the current measurement window.
    pub fn elapsed(&self) -> u64 {
        clamp_nanos(nanos_since(&self.start_time))
    }

    /// The number of root scopes.
    pub fn num_roots(&self) -> (n: usize)
        ensures
            n == self@.roots.len(),
    {
        self.roots.len()
    }

    /// The `k`-th root scope, in the order of first calls.
    pub fn root(&self, k: usize) -> (id: usize)
        requires
            k < self@.roots.len(),
        ensures
            id == self@.roots[k as int],
    {
        self.roots[k]
    }

    /// The number of scopes in the arena.
    pub fn num_scopes(&self) -> (n: usize)
        ensures
            n == self@.nodes.len(),
    {
        self.nodes.len()
    }

    /// The scope at position `id` of the arena.
    pub fn scope(&self, id: usize) -> (scope: &Scope)
        requires
            id < self@.nodes.len(),
        ensures
            scope@ == self@.nodes[id as int],
    {
        &self.nodes[id]
    }

    /// The innermost open scope, if any.
    pub fn current(&self) -> (cursor: Option<usize>)
        ensures
            position(cursor) == self@.cursor,
    {
        self.current
    }
}

} // verus!
