//! The forest against the history of calls that made it: which scopes
//! exist and how many calls each has completed.

use crate::forest::{lemma_lookup_none, lemma_lookup_some, lookup, Forest, ScopeModel};
use crate::laws::{run, Event};
use crate::stats::least;
use crate::steps::{lemma_cleared_wf, lemma_entered_wf, lemma_left_wf, lemma_resolved_is_idle};
use vstd::prelude::*;

verus! {

/// The names of the calls that are open after `events`, outermost first.
pub open spec fn open_names(events: Seq<Event>) -> Seq<Seq<char>>
    decreases events.len(),
{
    if events.len() == 0 {
        Seq::empty()
    } else {
        let before = open_names(events.drop_last());
        match events.last() {
            Event::Enter(name) => before.push(name),
            Event::Leave(_) => if before.len() > 0 {
                before.drop_last()
            } else {
                before
            },
            Event::Reset => before,
        }
    }
}

/// The number of calls in `events` that have begun and ended at `path`:
/// the names of the calls that were open around them, and their own name
/// last.
pub open spec fn completed(events: Seq<Event>, path: Seq<Seq<char>>) -> nat
    decreases events.len(),
{
    if events.len() == 0 {
        0
    } else {
        let init = events.drop_last();
        let ended: nat = if events.last() is Leave && path.len() > 0 && open_names(init) == path {
            1
        } else {
            0
        };
        completed(init, path) + ended
    }
}

/// The distinct names of the calls in `events` that began while no call
/// was open, in the order in which they first came.
pub open spec fn top_names(events: Seq<Event>) -> Seq<Seq<char>>
    decreases events.len(),
{
    if events.len() == 0 {
        Seq::empty()
    } else {
        let init = events.drop_last();
        let before = top_names(init);
        match events.last() {
            Event::Enter(name) => if open_names(init).len() == 0 && !before.contains(name) {
                before.push(name)
            } else {
                before
            },
            _ => before,
        }
    }
}

/// The names on the way from the root down to scope `i`.
pub open spec fn path_of(nodes: Seq<ScopeModel>, i: int) -> Seq<Seq<char>>
    decreases i,
{
    if i < 0 || i >= nodes.len() {
        Seq::empty()
    } else {
        match nodes[i].parent {
            Some(p) => if 0 <= p < i {
                path_of(nodes, p).push(nodes[i].name)
            } else {
                seq![nodes[i].name]
            },
            None => seq![nodes[i].name],
        }
    }
}

/// Every scope is listed by its parent, or among the roots if it has none.
pub open spec fn attached(f: Forest) -> bool {
    forall|i: int|
        0 <= i < f.nodes.len() ==> match (#[trigger] f.nodes[i]).parent {
            Some(p) => f.nodes[p].children.contains(i),
            None => f.roots.contains(i),
        }
}

/// Whether some scope of `f` stands at `path`.
pub open spec fn has_scope(f: Forest, path: Seq<Seq<char>>) -> bool {
    exists|i: int| 0 <= i < f.nodes.len() && #[trigger] path_of(f.nodes, i) == path
}

/// Whether the cursor of `f` stands where the calls that are open after
/// `events` lead: the names from its root down to it are their names.
pub open spec fn at_open_calls(f: Forest, events: Seq<Event>) -> bool {
    match f.cursor {
        Some(c) => path_of(f.nodes, c) == open_names(events),
        None => open_names(events).len() == 0,
    }
}

/// Whether the forest `f` tells the history `events`: the cursor stands at
/// the path of the open calls, each scope has counted the calls completed
/// at its path, no call was completed where no scope stands, and the roots
/// are the names that came at top level, in their order.
pub open spec fn agrees(f: Forest, events: Seq<Event>) -> bool {
    &&& f.wf()
    &&& attached(f)
    &&& at_open_calls(f, events)
    &&& forall|i: int|
        0 <= i < f.nodes.len() ==> (#[trigger] f.nodes[i]).stats.calls == least(
            completed(events, path_of(f.nodes, i)),
            u64::MAX as nat,
        )
    &&& forall|path: Seq<Seq<char>>| #[trigger] completed(events, path) > 0 ==> has_scope(f, path)
    &&& f.roots.len() == top_names(events).len()
    &&& forall|k: int|
        0 <= k < f.roots.len() ==> f.nodes[#[trigger] f.roots[k]].name == top_names(events)[k]
}

/// The path of a scope ends in its name.
pub proof fn lemma_path_ends_in_name(nodes: Seq<ScopeModel>, i: int)
    requires
        0 <= i < nodes.len(),
    ensures
        path_of(nodes, i).len() >= 1,
        path_of(nodes, i).last() == nodes[i].name,
        nodes[i].parent is None ==> path_of(nodes, i).len() == 1,
        nodes[i].parent is Some && 0 <= nodes[i].parent->0 < i ==> path_of(nodes, i).len() >= 2
            && path_of(nodes, i).drop_last() == path_of(nodes, nodes[i].parent->0),
    decreases i,
{
    match nodes[i].parent {
        Some(p) => {
            if 0 <= p < i {
                lemma_path_ends_in_name(nodes, p);
                assert(path_of(nodes, p).push(nodes[i].name).drop_last() =~= path_of(nodes, p));
            }
        },
        None => {},
    }
}

/// The path of a scope depends on the names and the parent links alone.
pub proof fn lemma_path_frame(a: Seq<ScopeModel>, b: Seq<ScopeModel>, i: int)
    requires
        a.len() <= b.len(),
        i < a.len(),
        forall|j: int|
            0 <= j < a.len() ==> (#[trigger] a[j]).parent == b[j].parent && a[j].name == b[j].name,
    ensures
        path_of(a, i) == path_of(b, i),
    decreases i,
{
    if 0 <= i {
        match a[i].parent {
            Some(p) => {
                if 0 <= p < i {
                    lemma_path_frame(a, b, p);
                }
            },
            None => {},
        }
    }
}

/// Two scopes of one list that share a name are one scope.
pub proof fn lemma_siblings_differ(f: Forest, list: Seq<int>, parent: Option<int>, i: int, j: int)
    requires
        f.list_wf(list, parent),
        list.contains(i),
        list.contains(j),
        f.nodes[i].name == f.nodes[j].name,
    ensures
        i == j,
{
    let a = choose|a: int| 0 <= a < list.len() && list[a] == i;
    let b = choose|b: int| 0 <= b < list.len() && list[b] == j;
    if a < b {
        assert(f.nodes[list[a]].name != f.nodes[list[b]].name);
    } else if b < a {
        assert(f.nodes[list[b]].name != f.nodes[list[a]].name);
    }
}

/// Each position of the call tree has one scope: two scopes with the same
/// path are one scope.
pub proof fn lemma_paths_differ(f: Forest, i: int, j: int)
    requires
        f.wf(),
        attached(f),
        0 <= i < f.nodes.len(),
        0 <= j < f.nodes.len(),
        path_of(f.nodes, i) == path_of(f.nodes, j),
    ensures
        i == j,
    decreases i,
{
    lemma_path_ends_in_name(f.nodes, i);
    lemma_path_ends_in_name(f.nodes, j);
    assert(f.node_wf(i));
    assert(f.node_wf(j));
    let ni = f.nodes[i];
    let nj = f.nodes[j];
    match ni.parent {
        Some(p) => {
            match nj.parent {
                Some(q) => {
                    lemma_paths_differ(f, p, q);
                    assert(f.node_wf(p));
                    lemma_siblings_differ(f, f.nodes[p].children, Some(p), i, j);
                },
                None => {},
            }
        },
        None => {
            match nj.parent {
                Some(q) => {},
                None => {
                    lemma_siblings_differ(f, f.roots, None, i, j);
                },
            }
        },
    }
}

/// A lookup that finds nothing among the siblings means that no scope
/// stands at the path of the cursor followed by the name.
pub proof fn lemma_unseen_path(f: Forest, name: Seq<char>, i: int)
    requires
        f.wf(),
        attached(f),
        lookup(f.nodes, f.siblings(), name, 0) is None,
        0 <= i < f.nodes.len(),
    ensures
        match f.cursor {
            Some(c) => path_of(f.nodes, i) != path_of(f.nodes, c).push(name),
            None => path_of(f.nodes, i) != seq![name],
        },
{
    lemma_lookup_none(f.nodes, f.siblings(), name, 0);
    lemma_path_ends_in_name(f.nodes, i);
    assert(f.node_wf(i));
    let sib = f.siblings();
    match f.cursor {
        Some(c) => {
            let target = path_of(f.nodes, c).push(name);
            lemma_path_ends_in_name(f.nodes, c);
            if path_of(f.nodes, i) == target {
                assert(target.last() == name);
                assert(target.drop_last() =~= path_of(f.nodes, c));
                match f.nodes[i].parent {
                    Some(p) => {
                        lemma_paths_differ(f, p, c);
                        let k = choose|k: int| 0 <= k < sib.len() && sib[k] == i;
                        assert(f.nodes[sib[k]].name != name);
                    },
                    None => {
                        assert(target.len() >= 2);
                    },
                }
            }
        },
        None => {
            if path_of(f.nodes, i) == seq![name] {
                assert(seq![name].last() == name);
                match f.nodes[i].parent {
                    Some(p) => {},
                    None => {
                        let k = choose|k: int| 0 <= k < sib.len() && sib[k] == i;
                        assert(f.nodes[sib[k]].name != name);
                    },
                }
            }
        },
    }
}

/// A call that begins keeps the forest in agreement with the history.
pub proof fn lemma_enter_agrees(f: Forest, events: Seq<Event>, name: Seq<char>)
    requires
        events.len() > 0,
        events.last() == Event::Enter(name),
        agrees(f, events.drop_last()),
    ensures
        agrees(f.entered(name), events),
{
    let init = events.drop_last();
    let g = f.entered(name);
    let id = f.resolve(name);
    let sib = f.siblings();
    lemma_entered_wf(f, name);
    match f.cursor {
        Some(c) => {
            assert(f.node_wf(c));
            lemma_path_ends_in_name(f.nodes, c);
        },
        None => {},
    }
    assert forall|path: Seq<Seq<char>>| completed(events, path) == completed(init, path) by {}
    if lookup(f.nodes, sib, name, 0) is Some {
        lemma_resolved_is_idle(f, name);
        assert(f.node_wf(id));
        assert forall|i: int| 0 <= i < f.nodes.len() implies path_of(g.nodes, i) == path_of(
            f.nodes,
            i,
        ) by {
            lemma_path_frame(f.nodes, g.nodes, i);
        }
        assert(attached(g)) by {
            assert forall|i: int| 0 <= i < g.nodes.len() implies match (#[trigger] g.nodes[i]).parent {
                Some(p) => g.nodes[p].children.contains(i),
                None => g.roots.contains(i),
            } by {
                assert(f.nodes[i].parent == g.nodes[i].parent);
                assert(f.node_wf(i));
            }
        }
        assert(path_of(g.nodes, id) == path_of(f.nodes, id));
        match f.cursor {
            Some(c) => {
                assert(path_of(f.nodes, id) == path_of(f.nodes, c).push(name));
            },
            None => {
                assert(path_of(f.nodes, id) == seq![name]);
                assert(seq![name] =~= open_names(init).push(name));
            },
        }
        assert forall|path: Seq<Seq<char>>| #[trigger] completed(events, path) > 0 implies has_scope(
            g,
            path,
        ) by {
            assert(completed(init, path) > 0);
            let i = choose|i: int| 0 <= i < f.nodes.len() && #[trigger] path_of(f.nodes, i) == path;
            assert(path_of(g.nodes, i) == path);
        }
        assert forall|i: int| 0 <= i < g.nodes.len() implies (#[trigger] g.nodes[i]).stats.calls
            == least(completed(events, path_of(g.nodes, i)), u64::MAX as nat) by {
            assert(f.nodes[i].stats == g.nodes[i].stats);
        }
        if f.cursor is None {
            lemma_lookup_some(f.nodes, sib, name, 0);
            let k2 = choose|k: int|
                0 <= k < sib.len() && #[trigger] sib[k] == id && f.nodes[sib[k]].name == name;
            assert(top_names(init)[k2] == name);
            assert(top_names(init).contains(name));
        }
        assert forall|k: int| 0 <= k < g.roots.len() implies g.nodes[#[trigger] g.roots[k]].name
            == top_names(events)[k] by {
            assert(f.nodes[f.roots[k]].name == top_names(init)[k]);
        }
    } else {
        lemma_lookup_none(f.nodes, sib, name, 0);
        assert forall|i: int| 0 <= i < f.nodes.len() implies path_of(g.nodes, i) == path_of(
            f.nodes,
            i,
        ) by {
            lemma_path_frame(f.nodes, g.nodes, i);
        }
        match f.cursor {
            Some(c) => {
                assert(path_of(g.nodes, id) == path_of(g.nodes, c).push(name));
                assert(path_of(g.nodes, c) == path_of(f.nodes, c));
            },
            None => {
                assert(path_of(g.nodes, id) == seq![name]);
                assert(seq![name] =~= open_names(init).push(name));
            },
        }
        assert(attached(g)) by {
            assert forall|i: int| 0 <= i < g.nodes.len() implies match (#[trigger] g.nodes[i]).parent {
                Some(p) => g.nodes[p].children.contains(i),
                None => g.roots.contains(i),
            } by {
                if i < f.nodes.len() {
                    assert(f.nodes[i].parent == g.nodes[i].parent);
                    assert(f.node_wf(i));
                    match f.nodes[i].parent {
                        Some(p) => {
                            let k = choose|k: int|
                                0 <= k < f.nodes[p].children.len() && f.nodes[p].children[k] == i;
                            assert(g.nodes[p].children[k] == i);
                        },
                        None => {
                            let k = choose|k: int| 0 <= k < f.roots.len() && f.roots[k] == i;
                            assert(g.roots[k] == i);
                        },
                    }
                } else {
                    match f.cursor {
                        Some(c) => {
                            assert(g.nodes[c].children[g.nodes[c].children.len() - 1] == i);
                        },
                        None => {
                            assert(g.roots[g.roots.len() - 1] == i);
                        },
                    }
                }
            }
        }
        assert forall|path: Seq<Seq<char>>| #[trigger] completed(events, path) > 0 implies has_scope(
            g,
            path,
        ) by {
            assert(completed(init, path) > 0);
            let i = choose|i: int| 0 <= i < f.nodes.len() && #[trigger] path_of(f.nodes, i) == path;
            assert(path_of(g.nodes, i) == path);
        }
        assert forall|i: int| 0 <= i < g.nodes.len() implies (#[trigger] g.nodes[i]).stats.calls
            == least(completed(events, path_of(g.nodes, i)), u64::MAX as nat) by {
            if i < f.nodes.len() {
                assert(f.nodes[i].stats == g.nodes[i].stats);
            } else {
                let path = path_of(g.nodes, i);
                if completed(init, path) > 0 {
                    let j = choose|j: int|
                        0 <= j < f.nodes.len() && #[trigger] path_of(f.nodes, j) == path;
                    lemma_unseen_path(f, name, j);
                    match f.cursor {
                        Some(c) => {
                            assert(path_of(g.nodes, c) == path_of(f.nodes, c));
                        },
                        None => {},
                    }
                }
            }
        }
        if f.cursor is None {
            if top_names(init).contains(name) {
                let k = choose|k: int|
                    0 <= k < top_names(init).len() && top_names(init)[k] == name;
                assert(f.nodes[sib[k]].name == name);
            }
            assert(top_names(events) == top_names(init).push(name));
        }
        assert forall|k: int| 0 <= k < g.roots.len() implies g.nodes[#[trigger] g.roots[k]].name
            == top_names(events)[k] by {
            if k < f.roots.len() {
                assert(f.nodes[f.roots[k]].name == top_names(init)[k]);
            }
        }
    }
}

/// A call that ends keeps the forest in agreement with the history.
pub proof fn lemma_leave_agrees(f: Forest, events: Seq<Event>, d: nat)
    requires
        events.len() > 0,
        events.last() == Event::Leave(d),
        d <= u64::MAX,
        agrees(f, events.drop_last()),
    ensures
        agrees(f.left(d), events),
{
    let init = events.drop_last();
    let g = f.left(d);
    lemma_left_wf(f, d);
    match f.cursor {
        Some(c) => {
            assert(f.node_wf(c));
            lemma_path_ends_in_name(f.nodes, c);
            if f.nodes[c].parent is None {
                let k = choose|k: int| 0 <= k < f.roots.len() && f.roots[k] == c;
                assert(f.roots.len() > 0);
            }
            assert forall|i: int| 0 <= i < f.nodes.len() implies path_of(g.nodes, i) == path_of(
                f.nodes,
                i,
            ) by {
                lemma_path_frame(f.nodes, g.nodes, i);
            }
            assert(attached(g)) by {
                assert forall|i: int| 0 <= i < g.nodes.len() implies match (
                #[trigger] g.nodes[i]).parent {
                    Some(p) => g.nodes[p].children.contains(i),
                    None => g.roots.contains(i),
                } by {
                    assert(f.nodes[i].parent == g.nodes[i].parent);
                    assert(f.node_wf(i));
                }
            }
            assert forall|path: Seq<Seq<char>>| #[trigger]
                completed(events, path) > 0 implies has_scope(g, path) by {
                if completed(init, path) > 0 {
                    let i = choose|i: int|
                        0 <= i < f.nodes.len() && #[trigger] path_of(f.nodes, i) == path;
                    assert(path_of(g.nodes, i) == path);
                } else {
                    assert(path_of(g.nodes, c) == path);
                }
            }
            assert forall|i: int| 0 <= i < g.nodes.len() implies (#[trigger] g.nodes[i]).stats.calls
                == least(completed(events, path_of(g.nodes, i)), u64::MAX as nat) by {
                if i != c {
                    assert(f.nodes[i].stats == g.nodes[i].stats);
                    if path_of(f.nodes, i) == path_of(f.nodes, c) {
                        lemma_paths_differ(f, i, c);
                    }
                }
            }
            assert forall|k: int| 0 <= k < g.roots.len() implies g.nodes[#[trigger] g.roots[k]].name
                == top_names(events)[k] by {
                assert(f.nodes[f.roots[k]].name == top_names(init)[k]);
            }
        },
        None => {
            assert forall|path: Seq<Seq<char>>| completed(events, path) == completed(
                init,
                path,
            ) by {}
        },
    }
}

/// The forest tells the history. After any calls that begin and end scopes
/// on a new profiler:
/// the roots are the distinct names of the calls that began while no call
/// was open, in the order in which they first came, so there are as many
/// roots as such names;
/// each scope has completed as many calls as the history holds at its
/// path, as far as the count can hold it;
/// no two scopes stand at the same path;
/// and wherever the history holds a completed call a scope stands.
pub proof fn forest_tells_history(events: Seq<Event>)
    requires
        forall|k: int|
            0 <= k < events.len() ==> (#[trigger] events[k]).wf() && events[k] != Event::Reset,
    ensures
        agrees(run(Forest::empty(), events), events),
        ({
            let f = run(Forest::empty(), events);
            &&& f.roots.len() == top_names(events).len()
            &&& forall|k: int|
                0 <= k < f.roots.len() ==> f.nodes[#[trigger] f.roots[k]].name == top_names(
                    events,
                )[k]
            &&& forall|i: int|
                0 <= i < f.nodes.len() ==> (#[trigger] f.nodes[i]).stats.calls == least(
                    completed(events, path_of(f.nodes, i)),
                    u64::MAX as nat,
                )
            &&& forall|i: int, j: int|
                0 <= i < f.nodes.len() && 0 <= j < f.nodes.len() && #[trigger] path_of(f.nodes, i)
                    == #[trigger] path_of(f.nodes, j) ==> i == j
            &&& forall|path: Seq<Seq<char>>| #[trigger]
                completed(events, path) > 0 ==> has_scope(f, path)
        }),
    decreases events.len(),
{
    if events.len() > 0 {
        let init = events.drop_last();
        forest_tells_history(init);
        let f = run(Forest::empty(), init);
        match events.last() {
            Event::Enter(name) => lemma_enter_agrees(f, events, name),
            Event::Leave(d) => lemma_leave_agrees(f, events, d),
            Event::Reset => {},
        }
    }
    let f = run(Forest::empty(), events);
    assert forall|i: int, j: int|
        0 <= i < f.nodes.len() && 0 <= j < f.nodes.len() && #[trigger] path_of(f.nodes, i)
            == #[trigger] path_of(f.nodes, j) implies i == j by {
        lemma_paths_differ(f, i, j);
    }
}

/// The cursor tells the call stack. After any calls on a new profiler,
/// resets among them, the names on the way from the root down to the
/// cursor are the names of the calls that are open, outermost first, and
/// no call is open where there is no cursor.
pub proof fn cursor_tells_open_calls(events: Seq<Event>)
    requires
        forall|k: int| 0 <= k < events.len() ==> (#[trigger] events[k]).wf(),
    ensures
        run(Forest::empty(), events).wf(),
        at_open_calls(run(Forest::empty(), events), events),
    decreases events.len(),
{
    if events.len() > 0 {
        let init = events.drop_last();
        cursor_tells_open_calls(init);
        let f = run(Forest::empty(), init);
        let g = run(Forest::empty(), events);
        match f.cursor {
            Some(c) => {
                assert(f.node_wf(c));
                lemma_path_ends_in_name(f.nodes, c);
            },
            None => {},
        }
        match events.last() {
            Event::Enter(name) => {
                let id = f.resolve(name);
                lemma_entered_wf(f, name);
                if lookup(f.nodes, f.siblings(), name, 0) is Some {
                    lemma_resolved_is_idle(f, name);
                    assert(f.node_wf(id));
                    lemma_path_frame(f.nodes, g.nodes, id);
                }
                match f.cursor {
                    Some(c) => {
                        lemma_path_frame(f.nodes, g.nodes, c);
                        assert(path_of(g.nodes, id) == path_of(g.nodes, c).push(name));
                    },
                    None => {
                        assert(path_of(g.nodes, id) == seq![name]);
                        assert(seq![name] =~= open_names(init).push(name));
                    },
                }
            },
            Event::Leave(d) => {
                lemma_left_wf(f, d);
                match f.cursor {
                    Some(c) => {
                        match f.nodes[c].parent {
                            Some(p) => {
                                lemma_path_frame(f.nodes, g.nodes, p);
                            },
                            None => {
                                assert(open_names(init).drop_last().len() == 0);
                            },
                        }
                    },
                    None => {},
                }
            },
            Event::Reset => {
                lemma_cleared_wf(f);
            },
        }
    }
}

/// The names that came at top level are distinct.
pub proof fn top_names_are_distinct(events: Seq<Event>)
    ensures
        forall|a: int, b: int|
            0 <= a < b < top_names(events).len() ==> top_names(events)[a] != top_names(events)[b],
    decreases events.len(),
{
    if events.len() > 0 {
        let before = top_names(events.drop_last());
        top_names_are_distinct(events.drop_last());
        assert forall|a: int, b: int| 0 <= a < b < top_names(events).len() implies top_names(
            events,
        )[a] != top_names(events)[b] by {
            if b == before.len() {
                assert(before[a] == top_names(events)[a]);
                if before[a] == top_names(events)[b] {
                    assert(before.contains(before[a]));
                }
            } else {
                assert(before[a] != before[b]);
            }
        }
    }
}

} // verus!
