use tcw3::flags::{
    DESCENDANT_SIZE_TRAITS, DESCENDANT_SUBVIEWS_FRAME, DESCENDANT_UPDATE_EVENT, LAYER_GROUP,
    MOUNTED, SIZE_TRAITS, SUBVIEWS_FRAME, UPDATE_EVENT,
};
use tcw3::flags::{ViewDirtyFlags, ViewFlags};
use tcw3::geometry::{Box2, Point2, SizeTraits, Vector2};
use tcw3::tree::{HLayer, HView, HWnd, Layout, ViewEventKind, ViewTree, Wm};

fn frame(x0: i32, y0: i32, x1: i32, y1: i32) -> Box2 {
    Box2::new(Point2::new(x0, y0), Point2::new(x1, y1))
}

fn mounts_of(evs: &[tcw3::tree::ViewEvent]) -> Vec<usize> {
    evs.iter()
        .filter(|e| e.kind == ViewEventKind::Mount)
        .map(|e| e.view)
        .collect()
}

fn unmounts_of(evs: &[tcw3::tree::ViewEvent]) -> Vec<usize> {
    evs.iter()
        .filter(|e| e.kind == ViewEventKind::Unmount)
        .map(|e| e.view)
        .collect()
}

#[test]
fn mount_order_scenario() {
    let wm = Wm::new();
    let mut tree = ViewTree::new();
    let w = HWnd::new(wm, &mut tree);
    let a = HView::new(&mut tree, ViewFlags::from_bits(LAYER_GROUP));
    let b = HView::new(&mut tree, ViewFlags::from_bits(0));
    let c = HView::new(&mut tree, ViewFlags::from_bits(0));
    a.set_layout(
        wm,
        &mut tree,
        Layout::new(
            vec![b, c],
            vec![frame(0, 0, 10, 10), frame(10, 0, 20, 10)],
            SizeTraits::default_traits(),
        ),
    );
    w.set_content_view(wm, &mut tree, a);
    let before = tree.take_pending_events();
    assert_eq!(mounts_of(&before).len(), 0);
    assert_eq!(unmounts_of(&before).len(), 0);

    w.update(wm, &mut tree);
    let evs = tree.take_pending_events();
    // `mount` fires on A first, then on its subviews B and C, in order.
    assert_eq!(mounts_of(&evs), vec![a.id, b.id, c.id]);
    assert_eq!(unmounts_of(&evs).len(), 0);
    assert!(tree.is_mounted(a));
    assert!(tree.is_mounted(b));
    assert!(tree.is_mounted(c));

    // Replace A's layout with one containing only B: exactly one unmount,
    // for C, and no new mounts.
    a.set_layout(
        wm,
        &mut tree,
        Layout::new(vec![b], vec![frame(0, 0, 10, 10)], SizeTraits::default_traits()),
    );
    let evs2 = tree.take_pending_events();
    assert_eq!(mounts_of(&evs2).len(), 0);
    assert_eq!(unmounts_of(&evs2), vec![c.id]);
    assert!(tree.is_mounted(b));
    assert!(!tree.is_mounted(c));
}

#[test]
fn visibility_updates_scheduled_once() {
    let wm = Wm::new();
    let mut tree = ViewTree::new();
    let w = HWnd::new(wm, &mut tree);
    let base = tree.update_request_count();
    assert!(!w.visibility(&tree));
    w.set_visibility(&mut tree, true);
    assert!(w.visibility(&tree));
    assert_eq!(tree.update_request_count(), base + 1);
    // Setting the same visibility again is a no-op: no second request.
    w.set_visibility(&mut tree, true);
    assert_eq!(tree.update_request_count(), base + 1);
    assert!(w.visibility(&tree));
    // The update pass reports the change once and resets the bookkeeping.
    let flush = w.update(wm, &mut tree);
    assert_eq!(flush.set_visible, Some(true));
    let flush2 = w.update(wm, &mut tree);
    assert_eq!(flush2.set_visible, None);
}

#[test]
fn propagation_idempotent_concretely() {
    let wm = Wm::new();
    let mut tree = ViewTree::new();
    let w = HWnd::new(wm, &mut tree);
    let a = HView::new(&mut tree, ViewFlags::from_bits(LAYER_GROUP));
    let b = HView::new(&mut tree, ViewFlags::from_bits(0));
    a.set_layout(
        wm,
        &mut tree,
        Layout::new(vec![b], vec![frame(0, 0, 4, 4)], SizeTraits::default_traits()),
    );
    w.set_content_view(wm, &mut tree, a);
    w.update(wm, &mut tree);
    let _ = tree.take_pending_events();

    b.pend_update(&mut tree);
    let a_dirty_once = tree.dirty_flags(a).bits;
    let b_dirty_once = tree.dirty_flags(b).bits;
    let requests_once = tree.update_request_count();
    b.pend_update(&mut tree);
    // The ancestor dirty state is unchanged by the second propagation.
    assert_eq!(tree.dirty_flags(a).bits, a_dirty_once);
    assert_eq!(tree.dirty_flags(b).bits, b_dirty_once);
    assert_eq!(tree.update_request_count(), requests_once);
    assert_ne!(a_dirty_once & DESCENDANT_UPDATE_EVENT, 0);
    assert_ne!(b_dirty_once & UPDATE_EVENT, 0);
}

#[test]
fn layer_cleanup_on_unmount() {
    let wm = Wm::new();
    let mut tree = ViewTree::new();
    let w = HWnd::new(wm, &mut tree);
    let a = HView::new(&mut tree, ViewFlags::from_bits(LAYER_GROUP));
    let b = HView::new(&mut tree, ViewFlags::from_bits(0));
    a.set_layout(
        wm,
        &mut tree,
        Layout::new(vec![b], vec![frame(0, 0, 4, 4)], SizeTraits::default_traits()),
    );
    w.set_content_view(wm, &mut tree, a);
    w.update(wm, &mut tree);
    let _ = tree.take_pending_events();
    tree.set_layers(b, vec![HLayer { id: 7 }, HLayer { id: 8 }]);
    assert_eq!(tree.layer_count(b), 2);

    // Detaching B from A's layout unmounts it and clears its layer list.
    a.set_layout(wm, &mut tree, Layout::new(vec![], vec![], SizeTraits::default_traits()));
    assert!(!tree.is_mounted(b));
    assert_eq!(tree.layer_count(b), 0);
    let evs = tree.take_pending_events();
    assert_eq!(unmounts_of(&evs), vec![b.id]);
}

#[test]
fn layout_swap_preserves_mounts() {
    let wm = Wm::new();
    let mut tree = ViewTree::new();
    let w = HWnd::new(wm, &mut tree);
    let a = HView::new(&mut tree, ViewFlags::from_bits(LAYER_GROUP));
    let b = HView::new(&mut tree, ViewFlags::from_bits(0));
    let c = HView::new(&mut tree, ViewFlags::from_bits(0));
    a.set_layout(
        wm,
        &mut tree,
        Layout::new(
            vec![b, c],
            vec![frame(0, 0, 10, 10), frame(10, 0, 20, 10)],
            SizeTraits::default_traits(),
        ),
    );
    w.set_content_view(wm, &mut tree, a);
    w.update(wm, &mut tree);
    let _ = tree.take_pending_events();

    // An equivalent-subview-set layout: only fresh frame and size-trait
    // dirtiness, no unmounts and no remounts.
    a.set_layout(
        wm,
        &mut tree,
        Layout::new(
            vec![b, c],
            vec![frame(0, 0, 20, 10), frame(0, 10, 20, 20)],
            SizeTraits::default_traits(),
        ),
    );
    let d = tree.dirty_flags(a).bits;
    assert_ne!(d & SUBVIEWS_FRAME, 0);
    assert_ne!(d & SIZE_TRAITS, 0);
    assert!(tree.is_mounted(b));
    assert!(tree.is_mounted(c));
    let evs = tree.take_pending_events();
    assert_eq!(mounts_of(&evs).len(), 0);
    assert_eq!(unmounts_of(&evs).len(), 0);
}

#[test]
fn close_unmounts_content_tree() {
    let wm = Wm::new();
    let mut tree = ViewTree::new();
    let w = HWnd::new(wm, &mut tree);
    let a = HView::new(&mut tree, ViewFlags::from_bits(LAYER_GROUP));
    w.set_content_view(wm, &mut tree, a);
    w.update(wm, &mut tree);
    let _ = tree.take_pending_events();
    assert!(tree.is_mounted(a));
    w.close(wm, &mut tree);
    assert!(w.is_closed(&tree));
    assert!(!tree.is_mounted(a));
    let evs = tree.take_pending_events();
    assert_eq!(unmounts_of(&evs), vec![a.id]);
}

#[test]
fn raise_level_pairs() {
    let f = ViewDirtyFlags::from_bits(SIZE_TRAITS | UPDATE_EVENT | MOUNTED);
    let r = f.raise_level();
    assert_eq!(r.bits, DESCENDANT_SIZE_TRAITS | DESCENDANT_UPDATE_EVENT);
    assert!(!ViewDirtyFlags::from_bits(MOUNTED).is_dirty());
    assert!(ViewDirtyFlags::from_bits(MOUNTED | SUBVIEWS_FRAME).is_dirty());
    assert_eq!(
        ViewDirtyFlags::from_bits(SUBVIEWS_FRAME).raise_level().bits,
        DESCENDANT_SUBVIEWS_FRAME
    );
}

#[test]
fn arrange_applies_layout_frames() {
    let wm = Wm::new();
    let mut tree = ViewTree::new();
    let w = HWnd::new(wm, &mut tree);
    let a = HView::new(&mut tree, ViewFlags::from_bits(LAYER_GROUP));
    let b = HView::new(&mut tree, ViewFlags::from_bits(0));
    let c = HView::new(&mut tree, ViewFlags::from_bits(0));
    a.set_layout(
        wm,
        &mut tree,
        Layout::new(
            vec![b, c],
            vec![frame(0, 0, 10, 10), frame(10, 0, 20, 10)],
            SizeTraits::default_traits(),
        ),
    );
    w.set_content_view(wm, &mut tree, a);
    w.update(wm, &mut tree);
    let _ = tree.take_pending_events();

    a.arrange_subviews(wm, &mut tree);
    assert_eq!(tree.frame(b), frame(0, 0, 10, 10));
    assert_eq!(tree.frame(c), frame(10, 0, 20, 10));
    assert_eq!(tree.global_frame(c), frame(10, 0, 20, 10));
    let evs = tree.take_pending_events();
    let positions: Vec<usize> = evs
        .iter()
        .filter(|e| e.kind == ViewEventKind::Position)
        .map(|e| e.view)
        .collect();
    assert_eq!(positions, vec![b.id, c.id]);
    assert_eq!(tree.dirty_flags(a).bits & SUBVIEWS_FRAME, 0);

    // Arranging again moves nothing, so no further position callbacks.
    a.arrange_subviews(wm, &mut tree);
    let evs2 = tree.take_pending_events();
    assert!(evs2.iter().all(|e| e.kind != ViewEventKind::Position));
}

#[test]
fn size_traits_fold_subview_minima() {
    let wm = Wm::new();
    let mut tree = ViewTree::new();
    let w = HWnd::new(wm, &mut tree);
    let a = HView::new(&mut tree, ViewFlags::from_bits(LAYER_GROUP));
    let b = HView::new(&mut tree, ViewFlags::from_bits(0));
    let c = HView::new(&mut tree, ViewFlags::from_bits(0));
    let own = SizeTraits {
        min: Vector2 { x: 5, y: 40 },
        max: Vector2 { x: 500, y: 500 },
        preferred: Vector2 { x: 100, y: 100 },
    };
    b.set_layout(
        wm,
        &mut tree,
        Layout::new(
            vec![],
            vec![],
            SizeTraits { min: Vector2 { x: 30, y: 10 }, ..SizeTraits::default_traits() },
        ),
    );
    c.set_layout(
        wm,
        &mut tree,
        Layout::new(
            vec![],
            vec![],
            SizeTraits { min: Vector2 { x: 10, y: 20 }, ..SizeTraits::default_traits() },
        ),
    );
    a.set_layout(
        wm,
        &mut tree,
        Layout::new(vec![b, c], vec![frame(0, 0, 10, 10), frame(10, 0, 20, 10)], own),
    );
    w.set_content_view(wm, &mut tree, a);
    w.update(wm, &mut tree);
    // Bottom-up: the subviews' traits first, then the parent's fold.
    b.compute_size_traits(wm, &mut tree);
    c.compute_size_traits(wm, &mut tree);
    a.compute_size_traits(wm, &mut tree);
    let st = tree.size_traits(a);
    // The fold keeps the strategy's maximum and preferred sizes and raises
    // the minimum to cover every subview's.
    assert_eq!(st.min, Vector2 { x: 30, y: 40 });
    assert_eq!(st.max, Vector2 { x: 500, y: 500 });
    assert_eq!(st.preferred, Vector2 { x: 100, y: 100 });
    assert_eq!(tree.dirty_flags(a).bits & SIZE_TRAITS, 0);
}
