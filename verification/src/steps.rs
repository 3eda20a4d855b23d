//! The three transitions of the forest keep it well formed.

use crate::forest::{
    above, height, lemma_above_bound, lemma_above_frame, lemma_height_frame, lemma_lookup_none,
    lemma_lookup_some, lookup, Forest,
};
use crate::stats::lemma_recorded_wf;
use vstd::prelude::*;

verus! {

/// The scope that a call resolves to among the siblings is not active: its
/// parent is the cursor, so it is neither the cursor nor above it.
pub proof fn lemma_resolved_is_idle(f: Forest, name: Seq<char>)
    requires
        f.wf(),
        lookup(f.nodes, f.siblings(), name, 0) is Some,
    ensures
        0 <= f.resolve(name) < f.nodes.len(),
        f.nodes[f.resolve(name)].parent == f.cursor,
        f.nodes[f.resolve(name)].name == name,
        !f.nodes[f.resolve(name)].active,
{
    let id = f.resolve(name);
    lemma_lookup_some(f.nodes, f.siblings(), name, 0);
    match f.cursor {
        Some(c) => {
            assert(f.node_wf(c));
            if above(f.nodes, c, id) {
                lemma_above_bound(f.nodes, c, id);
            }
        },
        None => {},
    }
}

/// Beginning a call keeps the forest well formed and puts the cursor on the
/// scope that the call resolves to.
pub proof fn lemma_entered_wf(f: Forest, name: Seq<char>)
    requires
        f.wf(),
    ensures
        f.entered(name).wf(),
        f.entered(name).cursor == Some(f.resolve(name)),
        f.entered(name).depth() == f.depth() + 1,
{
    let g = f.entered(name);
    let id = f.resolve(name);
    let sib = f.siblings();
    match lookup(f.nodes, sib, name, 0) {
        Some(_) => {
            lemma_resolved_is_idle(f, name);
            assert forall|i: int| 0 <= i < g.nodes.len() implies #[trigger] g.node_wf(i) by {
                assert(f.node_wf(i));
            }
            assert forall|i: int| 0 <= i < g.nodes.len() implies (#[trigger] g.nodes[i].active
                <==> g.on_stack(i)) by {
                lemma_above_frame(f.nodes, g.nodes, id, i);
                match f.cursor {
                    Some(c) => {
                        lemma_above_frame(f.nodes, g.nodes, c, i);
                    },
                    None => {},
                }
                assert(f.nodes[i].active <==> f.on_stack(i));
                assert(f.node_wf(id));
            }
            assert(f.node_wf(id));
            lemma_height_frame(f.nodes, g.nodes, id);
            match f.cursor {
                Some(c) => {
                    lemma_height_frame(f.nodes, g.nodes, c);
                },
                None => {},
            }
        },
        None => {
            lemma_lookup_none(f.nodes, sib, name, 0);
            assert forall|i: int| 0 <= i < g.nodes.len() implies #[trigger] g.node_wf(i) by {
                if i < f.nodes.len() {
                    assert(f.node_wf(i));
                }
            }
            assert forall|i: int| 0 <= i < g.nodes.len() implies (#[trigger] g.nodes[i].active
                <==> g.on_stack(i)) by {
                match f.cursor {
                    Some(c) => {
                        lemma_above_frame(f.nodes, g.nodes, c, i);
                        if i < f.nodes.len() {
                            assert(f.nodes[i].active <==> f.on_stack(i));
                        } else {
                            if above(f.nodes, c, i) {
                                lemma_above_bound(f.nodes, c, i);
                            }
                        }
                    },
                    None => {
                        if i < f.nodes.len() {
                            assert(f.nodes[i].active <==> f.on_stack(i));
                        }
                    },
                }
            }
            match f.cursor {
                Some(c) => {
                    lemma_height_frame(f.nodes, g.nodes, c);
                },
                None => {},
            }
        },
    }
}

/// Ending the innermost call keeps the forest well formed and closes one
/// open call.
pub proof fn lemma_left_wf(f: Forest, d: nat)
    requires
        f.wf(),
        d <= u64::MAX,
    ensures
        f.left(d).wf(),
        f.cursor is Some ==> f.left(d).depth() + 1 == f.depth(),
        f.cursor is Some ==> f.nodes[f.cursor->0].active,
{
    let g = f.left(d);
    match f.cursor {
        Some(c) => {
            assert(f.node_wf(c));
            lemma_recorded_wf(f.nodes[c].stats, d);
            assert(f.nodes[c].active <==> f.on_stack(c));
            assert forall|i: int| 0 <= i < g.nodes.len() implies #[trigger] g.node_wf(i) by {
                assert(f.node_wf(i));
            }
            assert forall|i: int| 0 <= i < g.nodes.len() implies (#[trigger] g.nodes[i].active
                <==> g.on_stack(i)) by {
                assert(f.nodes[i].active <==> f.on_stack(i));
                match f.nodes[c].parent {
                    Some(p) => {
                        lemma_above_frame(f.nodes, g.nodes, p, i);
                        if above(f.nodes, p, c) {
                            lemma_above_bound(f.nodes, p, c);
                        }
                    },
                    None => {},
                }
            }
            match f.nodes[c].parent {
                Some(p) => {
                    lemma_height_frame(f.nodes, g.nodes, p);
                },
                None => {},
            }
        },
        None => {},
    }
}

/// A reset keeps the forest well formed, leaves no root and keeps every
/// open call open.
pub proof fn lemma_cleared_wf(f: Forest)
    requires
        f.wf(),
    ensures
        f.cleared().wf(),
        f.cleared().roots.len() == 0,
        f.cleared().cursor == f.cursor,
        f.cleared().depth() == f.depth(),
{
    let g = f.cleared();
    if f.cursor is Some {
        assert forall|i: int| 0 <= i < g.nodes.len() implies #[trigger] g.node_wf(i) by {
            assert(f.node_wf(i));
        }
        assert forall|i: int| 0 <= i < g.nodes.len() implies (#[trigger] g.nodes[i].active
            <==> g.on_stack(i)) by {
            assert(f.nodes[i].active <==> f.on_stack(i));
        }
    }
}

} // verus!
