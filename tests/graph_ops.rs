use rg3d_scene::graph::{Graph, GraphError};
use rg3d_scene::handle::Handle;
use rg3d_scene::kind::{KindError, NodeKind};
use rg3d_scene::node::Node;
use rg3d_scene::pool::{Pool, PoolError};

fn named(name: &str) -> Node {
    let mut n = Node::new(NodeKind::Base);
    n.set_name(name.to_string());
    n
}

#[test]
fn kind_ids_round_trip() {
    for id in 0u8..5 {
        let k = NodeKind::new(id).unwrap();
        assert_eq!(k.id(), id);
    }
    assert_eq!(NodeKind::new(2), Ok(NodeKind::Camera));
    assert_eq!(NodeKind::new(5), Err(KindError::UnknownVariant(5)));
    assert_eq!(NodeKind::new(255), Err(KindError::UnknownVariant(255)));
}

#[test]
fn pool_free_makes_handle_stale() {
    let mut pool: Pool<u32> = Pool::new();
    let a = pool.allocate(10);
    assert_eq!(pool.get(a), Ok(&10));
    assert_eq!(pool.free(a), Ok(10));
    assert_eq!(pool.get(a), Err(PoolError::Dangling));
    assert_eq!(pool.free(a), Err(PoolError::Dangling));
    let b = pool.allocate(20);
    assert_eq!(b.get_index(), a.get_index());
    assert_ne!(b, a);
    assert_eq!(pool.get(a), Err(PoolError::Dangling));
    assert_eq!(pool.get(b), Ok(&20));
    assert_eq!(pool.get(Handle::none()), Err(PoolError::Dangling));
}

#[test]
fn reparent_then_cycle_is_refused() {
    let mut g = Graph::new();
    let r = g.add(Handle::none(), named("R")).unwrap();
    let a = g.add(r, named("A")).unwrap();
    let b = g.add(r, named("B")).unwrap();
    assert_eq!(g.get(r).unwrap().get_children(), &[a, b]);
    assert_eq!(g.reparent(b, a), Ok(()));
    assert_eq!(g.get(r).unwrap().get_children(), &[a]);
    assert_eq!(g.get(a).unwrap().get_children(), &[b]);
    assert_eq!(g.get(b).unwrap().get_parent(), a);
    assert_eq!(g.reparent(a, b), Err(GraphError::CycleDetected));
    assert_eq!(g.reparent(a, a), Err(GraphError::CycleDetected));
    assert_eq!(g.get(b).unwrap().get_parent(), a);
    assert_eq!(g.get(r).unwrap().get_children(), &[a]);
}

#[test]
fn add_under_stale_parent_fails() {
    let mut g = Graph::new();
    let bogus = Handle::new(3, 1);
    assert_eq!(g.add(bogus, named("X")), Err(GraphError::InvalidParent));
    let r = g.add(Handle::none(), named("R")).unwrap();
    assert!(g.is_valid_handle(r));
    assert_eq!(g.get(bogus).err(), Some(GraphError::Dangling));
}

#[test]
fn make_copy_keeps_authored_state() {
    let mut n = named("Lamp");
    n.set_visibility(false);
    n.set_resource(7);
    n.set_body(Handle::new(1, 1));
    let src = Handle::new(4, 2);
    let c1 = n.make_copy(src);
    let c2 = n.make_copy(src);
    for c in [&c1, &c2] {
        assert_eq!(c.get_name(), "Lamp");
        assert!(!c.get_visibility());
        assert_eq!(c.get_resource(), Some(7));
        assert_eq!(c.get_original_handle(), src);
        assert!(c.get_body().is_none());
        assert!(c.get_parent().is_none());
        assert!(c.get_children().is_empty());
    }
    let mut g = Graph::new();
    let h1 = g.add(Handle::none(), c1).unwrap();
    let h2 = g.add(Handle::none(), c2).unwrap();
    assert_ne!(h1, h2);
    assert_eq!(g.get(h1).unwrap().get_original_handle(), src);
    assert_eq!(g.get(h2).unwrap().get_original_handle(), src);
}

#[test]
fn remove_cascades_to_descendants() {
    let mut g = Graph::new();
    let r = g.add(Handle::none(), named("R")).unwrap();
    let a = g.add(r, named("A")).unwrap();
    let b = g.add(r, named("B")).unwrap();
    let c = g.add(a, named("C")).unwrap();
    let d = g.add(c, named("D")).unwrap();
    let mut removed = g.remove(a).unwrap();
    removed.sort_by_key(|h| h.get_index());
    assert_eq!(removed, vec![a, c, d]);
    assert_eq!(g.get(a).err(), Some(GraphError::Dangling));
    assert_eq!(g.get(c).err(), Some(GraphError::Dangling));
    assert_eq!(g.get(d).err(), Some(GraphError::Dangling));
    assert_eq!(g.get(r).unwrap().get_children(), &[b]);
    assert_eq!(g.get(b).unwrap().get_parent(), r);
    assert_eq!(g.remove(a), Err(GraphError::Dangling));
    assert_eq!(g.remove(c), Err(GraphError::Dangling));
    // Slots are reused, but the old handles stay stale.
    let e = g.add(r, named("E")).unwrap();
    assert!(e != a && e != c && e != d);
    assert_eq!(g.get(c).err(), Some(GraphError::Dangling));
    assert_eq!(g.get(e).unwrap().get_name(), "E");
}

#[test]
fn remove_root_clears_graph() {
    let mut g = Graph::new();
    let r = g.add(Handle::none(), named("R")).unwrap();
    let a = g.add(r, named("A")).unwrap();
    let other = g.add(Handle::none(), named("Other")).unwrap();
    assert_eq!(g.remove(r).unwrap().len(), 2);
    assert!(!g.is_valid_handle(r));
    assert!(!g.is_valid_handle(a));
    assert!(g.is_valid_handle(other));
}

#[test]
fn visibility_propagates_and_update_is_idempotent() {
    let mut g = Graph::new();
    let r = g.add(Handle::none(), named("R")).unwrap();
    let mut hidden = named("A");
    hidden.set_visibility(false);
    let a = g.add(r, hidden).unwrap();
    let c = g.add(a, named("C")).unwrap();
    let b = g.add(r, named("B")).unwrap();
    // Before the pass, global visibility is whatever the node carried.
    assert!(g.get(c).unwrap().get_global_visibility());
    g.update_hierarchical_data();
    assert!(g.get(r).unwrap().get_global_visibility());
    assert!(!g.get(a).unwrap().get_global_visibility());
    assert!(!g.get(c).unwrap().get_global_visibility());
    assert!(g.get(b).unwrap().get_global_visibility());
    let before: Vec<bool> = [r, a, b, c].iter().map(|h| g.get(*h).unwrap().get_global_visibility()).collect();
    g.update_hierarchical_data();
    let after: Vec<bool> = [r, a, b, c].iter().map(|h| g.get(*h).unwrap().get_global_visibility()).collect();
    assert_eq!(before, after);
    // Moving C out from under the hidden node makes it visible again.
    assert_eq!(g.reparent(c, b), Ok(()));
    g.update_hierarchical_data();
    assert!(g.get(c).unwrap().get_global_visibility());
}

#[test]
fn links_stay_consistent_over_mixed_operations() {
    let mut g = Graph::new();
    let r = g.add(Handle::none(), named("R")).unwrap();
    let mut hs = vec![r];
    for i in 0..6 {
        let parent = hs[i / 2];
        hs.push(g.add(parent, named("n")).unwrap());
    }
    assert_eq!(g.reparent(hs[3], hs[6]), Ok(()));
    assert_eq!(g.reparent(hs[2], hs[3]), Err(GraphError::CycleDetected));
    assert_eq!(g.reparent(hs[1], hs[3]), Ok(()));
    assert!(g.remove(hs[2]).is_ok());
    assert!(!g.is_valid_handle(hs[4]));
    assert_eq!(g.reparent(r, Handle::new(99, 1)), Err(GraphError::InvalidParent));
    assert_eq!(g.reparent(Handle::new(99, 1), r), Err(GraphError::Dangling));
    for h in &hs {
        if let Ok(n) = g.get(*h) {
            let p = n.get_parent();
            if p.is_some() {
                let siblings = g.get(p).unwrap().get_children();
                assert_eq!(siblings.iter().filter(|c| **c == *h).count(), 1);
            }
            for c in n.get_children() {
                assert_eq!(g.get(*c).unwrap().get_parent(), *h);
            }
        }
    }
}

#[test]
fn node_constructors() {
    let n = Node::new(NodeKind::Mesh);
    assert_eq!(n.get_name(), "Node");
    assert_eq!(*n.get_kind(), NodeKind::Mesh);
    assert!(n.get_visibility() && n.get_global_visibility());
    assert!(n.get_parent().is_none());
    assert!(n.get_original_handle().is_none());
    assert_eq!(n.get_resource(), None);
    let d = Node::default();
    assert_eq!(d.get_name(), "");
    assert_eq!(d.get_kind().id(), 0);
    let mut m = Node::new(NodeKind::Light);
    *m.get_kind_mut() = NodeKind::ParticleSystem;
    assert_eq!(m.get_kind().id(), 4);
    m.set_original_handle(Handle::new(2, 5));
    assert_eq!(m.get_original_handle().get_generation(), 5);
}

#[test]
fn queries_and_visibility_edits() {
    let mut g = Graph::new();
    let r = g.add(Handle::none(), named("R")).unwrap();
    let a = g.add(r, named("A")).unwrap();
    let b = g.add(a, named("B")).unwrap();
    assert_eq!(g.find_by_name(&"B".to_string()), Some(b));
    assert_eq!(g.find_by_name(&"Z".to_string()), None);
    let mut all = g.handles();
    all.sort_by_key(|h| h.get_index());
    assert_eq!(all, vec![r, a, b]);
    assert_eq!(g.set_visibility(a, false), Ok(()));
    assert!(!g.get(a).unwrap().get_visibility());
    assert!(g.get(b).unwrap().get_global_visibility());
    g.update_hierarchical_data();
    assert!(!g.get(b).unwrap().get_global_visibility());
    assert_eq!(g.remove(a).unwrap().len(), 2);
    assert_eq!(g.handles(), vec![r]);
    assert_eq!(g.set_visibility(a, true), Err(GraphError::Dangling));
    assert_eq!(g.find_by_name(&"B".to_string()), None);
}

#[test]
fn graph_setters_change_one_field() {
    let mut g = Graph::new();
    let r = g.add(Handle::none(), named("R")).unwrap();
    assert_eq!(g.set_name(r, "Root".to_string()), Ok(()));
    assert_eq!(g.set_kind(r, NodeKind::Camera), Ok(()));
    assert_eq!(g.set_body(r, Handle::new(2, 3)), Ok(()));
    assert_eq!(g.set_resource(r, 42), Ok(()));
    assert_eq!(g.set_original_handle(r, Handle::new(5, 6)), Ok(()));
    let n = g.get(r).unwrap();
    assert_eq!(n.get_name(), "Root");
    assert_eq!(*n.get_kind(), NodeKind::Camera);
    assert_eq!(n.get_body(), Handle::new(2, 3));
    assert_eq!(n.get_resource(), Some(42));
    assert_eq!(n.get_original_handle(), Handle::new(5, 6));
    let stale = Handle::new(7, 1);
    assert_eq!(g.set_name(stale, "X".to_string()), Err(GraphError::Dangling));
    assert_eq!(g.set_kind(stale, NodeKind::Mesh), Err(GraphError::Dangling));
}

#[test]
fn copy_source_handle_stays_stale_after_slot_reuse() {
    let mut t = Graph::new();
    let h = t.add(Handle::none(), named("Template")).unwrap();
    let c = t.get(h).unwrap().make_copy(h);
    assert_eq!(t.remove(h).unwrap(), vec![h]);
    let newer = t.add(Handle::none(), named("Newer")).unwrap();
    assert_eq!(newer.get_index(), h.get_index());
    assert_ne!(newer, h);
    assert_eq!(c.get_original_handle(), h);
    assert_eq!(t.get(c.get_original_handle()).err(), Some(GraphError::Dangling));
    assert_eq!(t.find_by_name(&"Newer".to_string()), Some(newer));
}
