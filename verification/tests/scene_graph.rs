use game_engine::game_object::{GameObject, Scene};
use game_engine::tree::ObjectId;
use game_engine::vectors::{Vector3, UNIT};

fn named(scene: &mut Scene, name: &str, parent: Option<ObjectId>) -> ObjectId {
    GameObject::create_empty(scene, name.to_owned(), parent)
}

#[test]
fn new_scene_holds_its_root() {
    let scene = Scene::new();
    assert_eq!(scene.len(), 1);
    let root = scene.root();
    assert_eq!(root, ObjectId { index: 0 });
    assert!(scene.contains(root));
    assert_eq!(scene.get(root).get_name(), "root");
    assert_eq!(scene.get(root).get_parent(), None);
    assert_eq!(scene.get(root).get_children(), vec![]);
}

#[test]
fn new_object_is_at_the_origin_without_links() {
    let mut scene = Scene::new();
    let a = named(&mut scene, "a", None);
    assert_eq!(a, ObjectId { index: 1 });
    assert_eq!(scene.len(), 2);
    assert!(scene.contains(a));
    assert!(!scene.contains(ObjectId { index: 2 }));
    let obj = scene.get(a);
    assert_eq!(obj.get_id(), a);
    assert_eq!(obj.get_name(), "a");
    assert_eq!(obj.get_pos(), Vector3::new(0, 0, 0));
    assert_eq!(obj.get_parent(), None);
    assert_eq!(obj.get_children(), vec![]);
    assert!(!obj.is_grounded());
    assert_eq!(obj.component_count(), 0);
    assert_eq!(scene.get(scene.root()).get_children(), vec![]);
}

#[test]
fn create_with_parent_appends_to_its_children() {
    let mut scene = Scene::new();
    let root = named(&mut scene, "root", None);
    let a = named(&mut scene, "a", Some(root));
    let b = named(&mut scene, "b", Some(root));
    assert_eq!(scene.get(root).get_children(), vec![a, b]);
    assert_eq!(scene.get(a).get_parent(), Some(root));
    assert_eq!(scene.get(b).get_parent(), Some(root));
}

#[test]
fn set_parent_none_removes_from_old_parent() {
    let mut scene = Scene::new();
    let p = named(&mut scene, "p", None);
    let x = named(&mut scene, "x", Some(p));
    let y = named(&mut scene, "y", Some(p));
    GameObject::set_parent(&mut scene, x, None);
    assert_eq!(scene.get(p).get_children(), vec![y]);
    assert_eq!(scene.get(x).get_parent(), None);
    assert_eq!(scene.get(y).get_parent(), Some(p));
}

#[test]
fn set_parent_moves_between_parents() {
    let mut scene = Scene::new();
    let p = named(&mut scene, "p", None);
    let q = named(&mut scene, "q", None);
    let x = named(&mut scene, "x", Some(p));
    let z = named(&mut scene, "z", Some(q));
    GameObject::set_parent(&mut scene, x, Some(q));
    assert_eq!(scene.get(p).get_children(), vec![]);
    assert_eq!(scene.get(q).get_children(), vec![z, x]);
    assert_eq!(scene.get(x).get_parent(), Some(q));
}

#[test]
fn set_parent_to_the_same_parent_moves_to_the_end() {
    let mut scene = Scene::new();
    let p = named(&mut scene, "p", None);
    let x = named(&mut scene, "x", Some(p));
    let y = named(&mut scene, "y", Some(p));
    GameObject::set_parent(&mut scene, x, Some(p));
    assert_eq!(scene.get(p).get_children(), vec![y, x]);
    assert_eq!(scene.get(x).get_parent(), Some(p));
}

#[test]
fn set_parent_of_a_root_to_none_changes_nothing() {
    let mut scene = Scene::new();
    let p = named(&mut scene, "p", None);
    let x = named(&mut scene, "x", Some(p));
    GameObject::set_parent(&mut scene, p, None);
    assert_eq!(scene.get(p).get_parent(), None);
    assert_eq!(scene.get(p).get_children(), vec![x]);
}

#[test]
fn remove_child_cuts_the_child_loose() {
    let mut scene = Scene::new();
    let p = named(&mut scene, "p", None);
    let x = named(&mut scene, "x", Some(p));
    let y = named(&mut scene, "y", Some(p));
    let below = named(&mut scene, "below", Some(x));
    GameObject::remove_child(&mut scene, p, x);
    assert_eq!(scene.get(p).get_children(), vec![y]);
    assert_eq!(scene.get(x).get_parent(), None);
    assert_eq!(scene.get(x).get_children(), vec![below]);
}

#[test]
fn children_snapshot_does_not_follow_later_changes() {
    let mut scene = Scene::new();
    let p = named(&mut scene, "p", None);
    let x = named(&mut scene, "x", Some(p));
    let snapshot = scene.get(p).get_children();
    let y = named(&mut scene, "y", Some(p));
    assert_eq!(snapshot, vec![x]);
    assert_eq!(scene.get(p).get_children(), vec![x, y]);
}

#[test]
fn is_below_follows_parent_links() {
    let mut scene = Scene::new();
    let a = named(&mut scene, "a", None);
    let b = named(&mut scene, "b", Some(a));
    let c = named(&mut scene, "c", Some(b));
    let d = named(&mut scene, "d", None);
    assert!(GameObject::is_below(&scene, c, a));
    assert!(GameObject::is_below(&scene, c, b));
    assert!(GameObject::is_below(&scene, b, a));
    assert!(!GameObject::is_below(&scene, a, a));
    assert!(!GameObject::is_below(&scene, a, c));
    assert!(!GameObject::is_below(&scene, d, a));
    assert!(!GameObject::is_below(&scene, c, d));
}

#[test]
fn can_set_parent_refuses_what_would_close_a_circle() {
    let mut scene = Scene::new();
    let a = named(&mut scene, "a", None);
    let b = named(&mut scene, "b", Some(a));
    let c = named(&mut scene, "c", Some(b));
    let d = named(&mut scene, "d", None);
    assert!(GameObject::can_set_parent(&scene, a, None));
    assert!(GameObject::can_set_parent(&scene, c, Some(a)));
    assert!(GameObject::can_set_parent(&scene, a, Some(d)));
    assert!(!GameObject::can_set_parent(&scene, a, Some(a)));
    assert!(!GameObject::can_set_parent(&scene, a, Some(b)));
    assert!(!GameObject::can_set_parent(&scene, a, Some(c)));
    assert!(!GameObject::can_set_parent(&scene, a, Some(ObjectId { index: 99 })));
}

#[test]
fn all_children_of_a_leaf_is_empty() {
    let mut scene = Scene::new();
    let a = named(&mut scene, "a", None);
    assert_eq!(GameObject::get_all_children(&scene, a), vec![]);
}

#[test]
fn all_children_of_a_chain() {
    let mut scene = Scene::new();
    let root = named(&mut scene, "root", None);
    let mut last = root;
    let mut expected = Vec::new();
    for i in 0..50 {
        last = named(&mut scene, &format!("link{}", i), Some(last));
        expected.push(last);
    }
    assert_eq!(GameObject::get_all_children(&scene, root), expected);
    assert_eq!(GameObject::get_all_children(&scene, expected[47]), vec![expected[48], expected[49]]);
}

#[test]
fn all_children_of_a_balanced_tree_come_level_by_level() {
    let mut scene = Scene::new();
    let root = named(&mut scene, "root", None);
    let l = named(&mut scene, "l", Some(root));
    let r = named(&mut scene, "r", Some(root));
    let rl = named(&mut scene, "rl", Some(r));
    let ll = named(&mut scene, "ll", Some(l));
    let rr = named(&mut scene, "rr", Some(r));
    let lr = named(&mut scene, "lr", Some(l));
    let deep = named(&mut scene, "deep", Some(rl));
    let all = GameObject::get_all_children(&scene, root);
    assert_eq!(all, vec![l, r, ll, lr, rl, rr, deep]);
    assert_eq!(GameObject::get_all_children(&scene, r), vec![rl, rr, deep]);
}

#[test]
fn all_children_of_a_skewed_tree_are_counted_once() {
    let mut scene = Scene::new();
    let root = named(&mut scene, "root", None);
    let mut spine = root;
    let mut count = 0;
    for i in 0..10 {
        let next = named(&mut scene, "spine", Some(spine));
        count += 1;
        for _ in 0..i {
            named(&mut scene, "leaf", Some(spine));
            count += 1;
        }
        spine = next;
    }
    let _other_tree = named(&mut scene, "elsewhere", None);
    let all = GameObject::get_all_children(&scene, root);
    assert_eq!(all.len(), count);
    let mut seen = all.clone();
    seen.sort_by_key(|id| id.index);
    seen.dedup();
    assert_eq!(seen.len(), count);
    assert!(!all.contains(&root));
}

#[test]
fn all_children_follow_a_reparented_subtree() {
    let mut scene = Scene::new();
    let root = named(&mut scene, "root", None);
    let a = named(&mut scene, "a", Some(root));
    let b = named(&mut scene, "b", Some(root));
    let a1 = named(&mut scene, "a1", Some(a));
    let a2 = named(&mut scene, "a2", Some(a));
    GameObject::set_parent(&mut scene, a, Some(b));
    assert_eq!(GameObject::get_all_children(&scene, root), vec![b, a, a1, a2]);
    GameObject::set_parent(&mut scene, a, None);
    assert_eq!(GameObject::get_all_children(&scene, root), vec![b]);
    assert_eq!(GameObject::get_all_children(&scene, a), vec![a1, a2]);
}

#[test]
fn set_pos_moves_only_that_object() {
    let mut scene = Scene::new();
    let a = named(&mut scene, "a", None);
    let b = named(&mut scene, "b", Some(a));
    GameObject::set_pos(&mut scene, b, Vector3::new(UNIT, -2 * UNIT, 3));
    assert_eq!(scene.get(b).get_pos(), Vector3::new(UNIT, -2 * UNIT, 3));
    assert_eq!(scene.get(a).get_pos(), Vector3::new(0, 0, 0));
    assert_eq!(scene.get(b).get_parent(), Some(a));
    assert_eq!(scene.get(a).get_children(), vec![b]);
}
