use mod_bridge::walk::{make_child_path, FindWalk, HitVia, ListWalk};

/// A small display tree: (name, children).
fn tree() -> Vec<(&'static str, Vec<usize>)> {
    vec![
        ("root", vec![1, 2]),
        ("moneyText", vec![3]),
        ("menu", vec![4, 5]),
        ("tip", vec![]),
        ("a", vec![]),
        ("b", vec![]),
    ]
}

fn list(max_depth: usize, limit: usize) -> Vec<(String, usize)> {
    let t = tree();
    let mut w = ListWalk::new(Some(0usize), 99usize, max_depth, limit);
    let mut out = Vec::new();
    while let Some(v) = w.next() {
        out.push((v.path.clone(), v.depth));
        if w.descends() {
            for &c in &t[v.node].1 {
                if !w.offer_child(c, t[c].0) {
                    break;
                }
            }
        }
    }
    out
}

#[test]
fn list_walk_breadth_first_with_paths() {
    let out = list(3, 120);
    let paths: Vec<&str> = out.iter().map(|(p, _)| p.as_str()).collect();
    assert_eq!(paths, vec!["root", "root/moneyText", "root/menu", "root/moneyText/tip", "root/menu/a", "root/menu/b"]);
    assert_eq!(out[3].1, 2);
}

#[test]
fn list_walk_depth_and_limit() {
    assert_eq!(list(0, 120).len(), 1);
    assert_eq!(list(1, 120).len(), 3);
    assert_eq!(list(3, 2).len(), 2);
    assert_eq!(list(3, 0).len(), 0);
}

#[test]
fn list_walk_starts_at_stage_without_root() {
    let mut w: ListWalk<usize> = ListWalk::new(None, 7usize, 3, 10);
    let v = w.next().unwrap();
    assert_eq!((v.node, v.depth, v.path.as_str()), (7, 0, "stage"));
    assert!(w.descends());
    assert!(w.offer_child(8, "clip"));
    let c = w.next().unwrap();
    assert_eq!((c.node, c.depth, c.path.as_str()), (8, 1, "stage/clip"));
    assert!(w.next().is_none());
    assert!(!w.descends());
    assert!(!w.offer_child(9, "late"));
}

#[test]
fn list_walk_cap_refuses_children() {
    // limit 1: at most 2 listed plus waiting nodes.
    let mut w: ListWalk<usize> = ListWalk::new(Some(0usize), 99usize, 3, 1);
    assert!(w.next().is_some());
    assert!(w.offer_child(1, "a"));
    assert!(!w.offer_child(2, "b"));
    assert!(w.next().is_none());
}

#[test]
fn child_path_format() {
    assert_eq!(make_child_path("root/menu", "play"), "root/menu/play");
}

#[test]
fn find_walk_collects_hits_in_order() {
    let t = tree();
    let mut w: FindWalk<usize, i32> = FindWalk::new("money,tip", 5, 60);
    w.consider_so_slot("localhost//g", "allMoney", 100);
    w.consider_so_slot("localhost//g", "level", 3);
    w.start_display(Some(0));
    while let Some(v) = w.next() {
        w.consider_display_name(t[v.node].0, "MovieClip".to_string());
        if v.node == 2 {
            w.consider_slot("tipTotal", 7);
        }
        if w.descends() {
            for &c in &t[v.node].1 {
                w.push_child(c, t[c].0);
            }
        }
    }
    assert_eq!(w.keywords(), &vec!["money".to_string(), "tip".to_string()]);
    let hits = w.into_hits();
    let got: Vec<(&str, HitVia)> = hits.iter().map(|h| (h.path.as_str(), h.via)).collect();
    assert_eq!(
        got,
        vec![
            ("so:localhost//g|allMoney", HitVia::SharedObjectSlot),
            ("root/moneyText", HitVia::DisplayName),
            ("root/menu.tipTotal", HitVia::Slot),
            ("root/moneyText/tip", HitVia::DisplayName),
        ]
    );
    assert_eq!(hits[0].value, Some(100));
    assert_eq!(hits[1].kind, Some("MovieClip".to_string()));
}

#[test]
fn find_walk_stops_at_limit() {
    let mut w: FindWalk<usize, i32> = FindWalk::new("a", 5, 1);
    w.consider_so_slot("s", "a1", 1);
    assert!(w.full());
    w.consider_so_slot("s", "a2", 2);
    w.start_display(Some(0));
    assert!(w.next().is_none());
    assert_eq!(w.into_hits().len(), 1);
}

#[test]
fn find_walk_ignores_shared_objects_after_display_start() {
    let mut w: FindWalk<usize, i32> = FindWalk::new("money", 5, 10);
    w.start_display(None);
    w.consider_so_slot("s", "money", 1);
    assert!(w.next().is_none());
    w.consider_display_name("money", "MovieClip".to_string());
    assert_eq!(w.into_hits().len(), 0);
}

#[test]
fn hit_labels() {
    assert_eq!(HitVia::SharedObjectSlot.label(), "shared_object_slot");
    assert_eq!(HitVia::DisplayName.label(), "display_name");
    assert_eq!(HitVia::Slot.label(), "slot");
}
