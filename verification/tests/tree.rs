use coarse_prof::{Profiler, ScopeName};

#[test]
fn test_multiple_roots() {
    let mut p = Profiler::new();
    coarse_prof::reset(&mut p);

    for i in 0..=5 {
        if i == 5 {
            let guard = coarse_prof::enter(&mut p, "a");
            guard.end(&mut p);
        }
        {
            let guard = coarse_prof::enter(&mut p, "b");
            guard.end(&mut p);
        }
    }

    assert_eq!(p.num_roots(), 2);

    for k in 0..p.num_roots() {
        let root = p.scope(p.root(k));
        assert!(root.parent().is_none());
        assert!(root.children().is_empty());
    }

    assert_eq!(*p.scope(p.root(0)).name(), ScopeName::Borrowed("b"));
    assert_eq!(*p.scope(p.root(1)).name(), ScopeName::Borrowed("a"));

    assert_eq!(p.scope(p.root(0)).num_calls(), 6);
    assert_eq!(p.scope(p.root(1)).num_calls(), 1);
}

#[test]
fn test_succ_reuse() {
    let mut p = Profiler::new();
    coarse_prof::reset(&mut p);

    for i in 0..=5 {
        let a = coarse_prof::enter(&mut p, "a");
        if i > 2 {
            let b = coarse_prof::enter(&mut p, "b");
            b.end(&mut p);
        }
        a.end(&mut p);
    }

    assert_eq!(p.num_roots(), 1);

    assert_eq!(p.num_roots(), 1);

    let root = p.scope(p.root(0));
    assert_eq!(*root.name(), ScopeName::Borrowed("a"));
    assert!(root.parent().is_none());
    assert_eq!(root.children().len(), 1);
    assert_eq!(root.num_calls(), 6);

    let succ = p.scope(root.children()[0]);
    assert_eq!(*succ.name(), ScopeName::Borrowed("b"));
    assert_eq!(succ.parent(), Some(p.root(0)));
    assert!(succ.children().is_empty());
    assert_eq!(succ.num_calls(), 3);
}

#[test]
fn test_reset_during_frame() {
    let mut p = Profiler::new();
    coarse_prof::reset(&mut p);

    for i in 0..=5 {
        let a = coarse_prof::enter(&mut p, "a");
        let b = coarse_prof::enter(&mut p, "b");
        {
            let c = coarse_prof::enter(&mut p, "c");
            if i == 5 {
                coarse_prof::reset(&mut p);
            }

            assert!(p.current().is_some());

            let d = coarse_prof::enter(&mut p, "d");
            d.end(&mut p);
            c.end(&mut p);
        }
        b.end(&mut p);
        a.end(&mut p);
    }

    assert!(p.num_roots() == 0);
    assert!(p.current().is_none());
}

#[test]
fn names_compare_by_text() {
    let borrowed = ScopeName::Borrowed("render");
    let owned = ScopeName::Owned(String::from("render"));
    let other = ScopeName::Owned(String::from("physics"));
    assert!(borrowed.same_as(&owned));
    assert!(owned.same_as(&borrowed));
    assert!(!borrowed.same_as(&other));
    assert_eq!(borrowed, owned);
    assert_ne!(borrowed, other);
    assert_eq!(owned.as_str(), "render");
}

#[test]
fn owned_and_borrowed_names_share_a_scope() {
    let mut p = Profiler::new();
    let g = p.enter(ScopeName::Borrowed("frame"));
    g.end(&mut p);
    let g = p.enter(ScopeName::Owned(String::from("frame")));
    g.end(&mut p);
    assert_eq!(p.num_roots(), 1);
    assert_eq!(p.num_scopes(), 1);
    assert_eq!(p.scope(p.root(0)).num_calls(), 2);
}

#[test]
fn same_name_at_two_positions_is_two_scopes() {
    let mut p = Profiler::new();
    p.enter(ScopeName::Borrowed("a"));
    p.enter(ScopeName::Borrowed("a"));
    assert!(p.leave(5));
    assert!(p.leave(7));
    assert_eq!(p.num_roots(), 1);
    assert_eq!(p.num_scopes(), 2);
    let root = p.scope(p.root(0));
    assert_eq!(root.children().len(), 1);
    assert_eq!(root.stats().dur_sum(), 7);
    assert_eq!(p.scope(root.children()[0]).stats().dur_sum(), 5);
}

#[test]
fn sibling_reuse_keeps_the_children_count() {
    let mut p = Profiler::new();
    p.enter(ScopeName::Borrowed("frame"));
    for round in 1..=4u64 {
        p.enter(ScopeName::Borrowed("physics"));
        p.leave(10);
        p.enter(ScopeName::Borrowed("render"));
        p.leave(20);
        let frame = p.scope(p.root(0));
        assert_eq!(frame.children().len(), 2);
        assert_eq!(p.scope(frame.children()[0]).num_calls(), round);
        assert_eq!(p.scope(frame.children()[1]).num_calls(), round);
    }
    p.leave(200);
    assert_eq!(p.num_scopes(), 3);
}

#[test]
fn active_flag_follows_the_stack() {
    let mut p = Profiler::new();
    p.enter(ScopeName::Borrowed("a"));
    p.enter(ScopeName::Borrowed("b"));
    assert_eq!(p.current(), Some(1));
    assert!(p.scope(0).is_active());
    assert!(p.scope(1).is_active());
    p.leave(1);
    assert_eq!(p.current(), Some(0));
    assert!(p.scope(0).is_active());
    assert!(!p.scope(1).is_active());
    p.leave(2);
    assert_eq!(p.current(), None);
    assert!(!p.scope(0).is_active());
}

#[test]
fn leave_without_an_open_call_changes_nothing() {
    let mut p = Profiler::new();
    assert!(!p.leave(3));
    assert_eq!(p.num_roots(), 0);
    assert_eq!(p.num_scopes(), 0);
    p.enter(ScopeName::Borrowed("a"));
    assert!(p.leave(4));
    assert!(!p.leave(5));
    assert_eq!(p.scope(p.root(0)).num_calls(), 1);
    assert_eq!(p.scope(p.root(0)).stats().dur_sum(), 4);
}

#[test]
fn reset_when_settled_empties_the_arena() {
    let mut p = Profiler::new();
    p.enter(ScopeName::Borrowed("a"));
    p.leave(1);
    p.reset();
    assert_eq!(p.num_roots(), 0);
    assert_eq!(p.num_scopes(), 0);
    assert_eq!(p.current(), None);
}

#[test]
fn reset_with_open_calls_keeps_them_open() {
    let mut p = Profiler::new();
    p.enter(ScopeName::Borrowed("a"));
    p.enter(ScopeName::Borrowed("b"));
    p.reset();
    assert_eq!(p.num_roots(), 0);
    assert_eq!(p.current(), Some(1));
    assert!(p.leave(1));
    assert_eq!(p.current(), Some(0));
    assert_eq!(p.num_scopes(), 2);
    assert!(p.leave(1));
    assert_eq!(p.current(), None);
    assert_eq!(p.num_roots(), 0);
    assert_eq!(p.num_scopes(), 0);
    let scopes_before = p.num_scopes();
    p.enter(ScopeName::Borrowed("a"));
    p.leave(9);
    assert_eq!(p.num_roots(), 1);
    assert_eq!(p.root(0), scopes_before);
    let root = p.scope(p.root(0));
    assert_eq!(root.num_calls(), 1);
    assert_eq!(root.stats().dur_sum(), 9);
    assert!(root.children().is_empty());
}

#[test]
fn guard_measures_a_duration() {
    let mut p = Profiler::new();
    let guard = p.enter(ScopeName::Borrowed("a"));
    let first = guard.elapsed();
    let second = guard.elapsed();
    assert!(first <= second);
    assert!(guard.end(&mut p));
    let stats = p.scope(p.root(0)).stats();
    assert_eq!(stats.num_calls(), 1);
    assert!(stats.dur_last() >= second);
    assert!(p.elapsed() >= stats.dur_last());
}
