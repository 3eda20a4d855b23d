//! The mathematical model of the profiler: a forest of scopes held in one
//! sequence and linked by positions in it, with a cursor on the scope that
//! is being timed.

use crate::stats::StatsModel;
use vstd::prelude::*;

verus! {

/// What one scope stands for.
pub ghost struct ScopeModel {
    pub name: Seq<char>,
    pub parent: Option<int>,
    pub children: Seq<int>,
    pub active: bool,
    pub stats: StatsModel,
}

/// What a profiler stands for. `nodes` holds the scopes in the order in
/// which they were created; `roots` lists the scopes entered at top level,
/// in the order of their first call; `cursor` is the innermost open scope.
/// After a reset with open calls, `nodes` still holds the scopes that the
/// reset cut off from the roots, until the last of those calls has ended.
pub ghost struct Forest {
    pub nodes: Seq<ScopeModel>,
    pub roots: Seq<int>,
    pub cursor: Option<int>,
}

/// Whether `i` is `from` or one of its ancestors.
pub open spec fn above(nodes: Seq<ScopeModel>, from: int, i: int) -> bool
    decreases from,
{
    if from < 0 || from >= nodes.len() {
        false
    } else if from == i {
        true
    } else {
        match nodes[from].parent {
            Some(p) => 0 <= p < from && above(nodes, p, i),
            None => false,
        }
    }
}

/// The first scope of `list`, from position `k` on, that is called `name`.
pub open spec fn lookup(nodes: Seq<ScopeModel>, list: Seq<int>, name: Seq<char>, k: int) -> Option<
    int,
>
    decreases list.len() - k,
{
    if k < 0 || k >= list.len() {
        None
    } else if nodes[list[k]].name == name {
        Some(list[k])
    } else {
        lookup(nodes, list, name, k + 1)
    }
}

/// A scope that has just been created by its first call, which is open.
pub open spec fn fresh(name: Seq<char>, parent: Option<int>) -> ScopeModel {
    ScopeModel {
        name,
        parent,
        children: Seq::empty(),
        active: true,
        stats: StatsModel::initial(),
    }
}

impl Forest {
    /// The forest with no scope and no open call.
    pub open spec fn empty() -> Forest {
        Forest { nodes: Seq::empty(), roots: Seq::empty(), cursor: None }
    }

    /// The scopes among which the next call is looked up: the children of
    /// the cursor, or the roots when no call is open.
    pub open spec fn siblings(self) -> Seq<int> {
        match self.cursor {
            Some(c) => self.nodes[c].children,
            None => self.roots,
        }
    }

    /// The scope that a call of `name` resolves to: the sibling of that
    /// name, or else the position of a new scope.
    pub open spec fn resolve(self, name: Seq<char>) -> int {
        match lookup(self.nodes, self.siblings(), name, 0) {
            Some(id) => id,
            None => self.nodes.len() as int,
        }
    }

    /// The forest after a call of `name` has begun.
    pub open spec fn entered(self, name: Seq<char>) -> Forest {
        match lookup(self.nodes, self.siblings(), name, 0) {
            Some(id) => Forest {
                nodes: self.nodes.update(id, ScopeModel { active: true, ..self.nodes[id] }),
                roots: self.roots,
                cursor: Some(id),
            },
            None => {
                let id = self.nodes.len() as int;
                match self.cursor {
                    Some(c) => Forest {
                        nodes: self.nodes.update(
                            c,
                            ScopeModel {
                                children: self.nodes[c].children.push(id),
                                ..self.nodes[c]
                            },
                        ).push(fresh(name, Some(c))),
                        roots: self.roots,
                        cursor: Some(id),
                    },
                    None => Forest {
                        nodes: self.nodes.push(fresh(name, None)),
                        roots: self.roots.push(id),
                        cursor: Some(id),
                    },
                }
            },
        }
    }

    /// The forest after the innermost open call has ended after `d`
    /// nanoseconds: its scope records the call and the cursor moves to its
    /// parent. Where that was the last open call and the forest has no
    /// roots, the scopes that a reset had cut off are dropped with it. With
    /// no open call nothing changes.
    pub open spec fn left(self, d: nat) -> Forest {
        match self.cursor {
            Some(c) => if self.nodes[c].parent is None && self.roots.len() == 0 {
                Forest::empty()
            } else {
                Forest {
                    nodes: self.nodes.update(
                        c,
                        ScopeModel {
                            active: false,
                            stats: self.nodes[c].stats.recorded(d),
                            ..self.nodes[c]
                        },
                    ),
                    roots: self.roots,
                    cursor: self.nodes[c].parent,
                }
            },
            None => self,
        }
    }

    /// The forest after a reset: no roots are left. The open calls stay
    /// where they are, cut off from the roots, until they have ended.
    pub open spec fn cleared(self) -> Forest {
        match self.cursor {
            Some(_) => Forest { roots: Seq::empty(), ..self },
            None => Forest::empty(),
        }
    }

    /// The number of open calls.
    pub open spec fn depth(self) -> nat {
        match self.cursor {
            Some(c) => height(self.nodes, c),
            None => 0,
        }
    }

    /// Whether scope `i` is the cursor or one of its ancestors.
    pub open spec fn on_stack(self, i: int) -> bool {
        match self.cursor {
            Some(c) => above(self.nodes, c, i),
            None => false,
        }
    }

    /// The scopes of `list` are scopes of this forest whose parent is
    /// `parent`, which was created before them, and no two of them share a
    /// name.
    pub open spec fn list_wf(self, list: Seq<int>, parent: Option<int>) -> bool {
        &&& forall|k: int|
            0 <= k < list.len() ==> {
                let c = #[trigger] list[k];
                &&& 0 <= c < self.nodes.len()
                &&& self.nodes[c].parent == parent
                &&& match parent {
                    Some(p) => p < c,
                    None => true,
                }
            }
        &&& forall|j: int, k: int|
            0 <= j < k < list.len() ==> self.nodes[#[trigger] list[j]].name
                != self.nodes[#[trigger] list[k]].name
    }

    /// Scope `i` has well-formed statistics, a parent created before it and
    /// a well-formed list of children.
    pub open spec fn node_wf(self, i: int) -> bool {
        &&& self.nodes[i].stats.wf()
        &&& match self.nodes[i].parent {
            Some(p) => 0 <= p < i,
            None => true,
        }
        &&& self.list_wf(self.nodes[i].children, Some(i))
    }

    /// The invariant of the profiler: every scope is well formed, the roots
    /// are parentless scopes with distinct names, the cursor is a scope, and
    /// the active scopes are exactly the cursor and its ancestors.
    pub open spec fn wf(self) -> bool {
        &&& forall|i: int| 0 <= i < self.nodes.len() ==> #[trigger] self.node_wf(i)
        &&& self.list_wf(self.roots, None)
        &&& match self.cursor {
            Some(c) => 0 <= c < self.nodes.len(),
            None => true,
        }
        &&& forall|i: int|
            0 <= i < self.nodes.len() ==> (#[trigger] self.nodes[i].active <==> self.on_stack(i))
    }
}

/// The number of scopes from `from` up to its root, both counted.
pub open spec fn height(nodes: Seq<ScopeModel>, from: int) -> nat
    decreases from,
{
    if from < 0 || from >= nodes.len() {
        0
    } else {
        match nodes[from].parent {
            Some(p) => if 0 <= p < from {
                1 + height(nodes, p)
            } else {
                1
            },
            None => 1,
        }
    }
}

/// An ancestor was created no later than its descendant.
pub proof fn lemma_above_bound(nodes: Seq<ScopeModel>, from: int, i: int)
    requires
        above(nodes, from, i),
    ensures
        0 <= i <= from < nodes.len(),
    decreases from,
{
    if from != i {
        lemma_above_bound(nodes, nodes[from].parent->0, i);
    }
}

/// Ancestry depends on the parent links alone.
pub proof fn lemma_above_frame(a: Seq<ScopeModel>, b: Seq<ScopeModel>, from: int, i: int)
    requires
        a.len() <= b.len(),
        from < a.len(),
        forall|j: int| 0 <= j < a.len() ==> (#[trigger] a[j]).parent == b[j].parent,
    ensures
        above(a, from, i) == above(b, from, i),
    decreases from,
{
    if 0 <= from && from != i {
        match a[from].parent {
            Some(p) => {
                if 0 <= p < from {
                    lemma_above_frame(a, b, p, i);
                }
            },
            None => {},
        }
    }
}

/// The height of a scope depends on the parent links alone.
pub proof fn lemma_height_frame(a: Seq<ScopeModel>, b: Seq<ScopeModel>, from: int)
    requires
        a.len() <= b.len(),
        from < a.len(),
        forall|j: int| 0 <= j < a.len() ==> (#[trigger] a[j]).parent == b[j].parent,
    ensures
        height(a, from) == height(b, from),
    decreases from,
{
    if 0 <= from {
        match a[from].parent {
            Some(p) => {
                if 0 <= p < from {
                    lemma_height_frame(a, b, p);
                }
            },
            None => {},
        }
    }
}

/// A lookup that finds nothing has passed over no scope of that name.
pub proof fn lemma_lookup_none(nodes: Seq<ScopeModel>, list: Seq<int>, name: Seq<char>, k: int)
    requires
        0 <= k,
        lookup(nodes, list, name, k) is None,
    ensures
        forall|j: int| k <= j < list.len() ==> nodes[#[trigger] list[j]].name != name,
    decreases list.len() - k,
{
    if k < list.len() {
        lemma_lookup_none(nodes, list, name, k + 1);
    }
}

/// A lookup that finds a scope finds one of the list that has the name.
pub proof fn lemma_lookup_some(nodes: Seq<ScopeModel>, list: Seq<int>, name: Seq<char>, k: int)
    requires
        0 <= k,
        lookup(nodes, list, name, k) is Some,
    ensures
        exists|j: int|
            k <= j < list.len() && #[trigger] list[j] == lookup(nodes, list, name, k)->0
                && nodes[list[j]].name == name,
    decreases list.len() - k,
{
    if nodes[list[k]].name != name {
        lemma_lookup_some(nodes, list, name, k + 1);
    }
}

/// Among scopes with distinct names, a lookup finds the one that has the
/// name.
pub proof fn lemma_lookup_finds(
    nodes: Seq<ScopeModel>,
    list: Seq<int>,
    name: Seq<char>,
    j: int,
    k: int,
)
    requires
        0 <= k <= j < list.len(),
        nodes[list[j]].name == name,
        forall|a: int, b: int|
            0 <= a < b < list.len() ==> nodes[#[trigger] list[a]].name != nodes[
                #[trigger] list[b]].name,
    ensures
        lookup(nodes, list, name, k) == Some(list[j]),
    decreases j - k,
{
    if k < j {
        lemma_lookup_finds(nodes, list, name, j, k + 1);
    }
}

} // verus!
