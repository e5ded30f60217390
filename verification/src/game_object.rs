//! The scene graph: objects with a transform and a list of components, held
//! in one scene and linked into trees by parent and child references.
//!
//! Objects live in the slots of a [`Scene`] and are named by [`ObjectId`]
//! handles. What only reads one object is a method of [`GameObject`];
//! whatever changes an object or follows links between objects is an
//! associated function that takes the scene and the handle of the object.

use std::collections::VecDeque;
use vstd::prelude::*;
use crate::components::{Collider, CompRc, Component, ComponentKind, ComponentRef};
use crate::polygon::Polygon;
use crate::tree::{
    ObjectId, Node, Forest, in_forest, parent_of, children_of, is_forest, is_descendant,
    detached, attached, reparented, may_reparent, lemma_detached, lemma_detached_below,
    lemma_attached, ancestor, rooted, descendants, expansion, is_breadth_first,
    lemma_ancestor_none_stays, lemma_child_is_descendant, lemma_descendant_in_forest,
    lemma_distinct_objects_bounded, lemma_expansion_prefix, lemma_unexpanded_child_is_new,
    lemma_breadth_first_complete, lemma_breadth_first_count,
};
use crate::vectors::{Vector2, Vector3};

verus! {

/// What an object is, as plain values.
pub struct ObjectView {
    pub id: ObjectId,
    pub name: Seq<char>,
    pub pos: Vector3,
    pub rot: Vector3,
    pub scale: Vector3,
    pub grounded: bool,
    pub components: Seq<Component>,
    pub children: Seq<ObjectId>,
    pub parent: Option<ObjectId>,
}

/// An object of the scene graph.
pub struct GameObject {
    id: ObjectId,
    name: String,
    pos: Vector3,
    rot: Vector3,
    scale: Vector3,
    grounded: bool,
    components: Vec<Component>,
    children: Vec<ObjectId>,
    parent: Option<ObjectId>,
}

impl View for GameObject {
    type V = ObjectView;

    closed spec fn view(&self) -> ObjectView {
        ObjectView {
            id: self.id,
            name: self.name@,
            pos: self.pos,
            rot: self.rot,
            scale: self.scale,
            grounded: self.grounded,
            components: self.components@,
            children: self.children@,
            parent: self.parent,
        }
    }
}

/// The objects of one world, by slot. Objects are added and never removed.
pub struct Scene {
    objects: Vec<GameObject>,
}

impl View for Scene {
    type V = Seq<ObjectView>;

    closed spec fn view(&self) -> Seq<ObjectView> {
        views_of(self.objects@)
    }
}

/// Each object of a list as plain values.
pub open spec fn views_of(objects: Seq<GameObject>) -> Seq<ObjectView> {
    Seq::new(objects.len(), |i: int| objects[i]@)
}

/// The links that a list of objects holds.
pub open spec fn links_of(objects: Seq<ObjectView>) -> Forest {
    Seq::new(
        objects.len(),
        |i: int| Node { parent: objects[i].parent, children: objects[i].children },
    )
}

/// The objects with their links replaced by those of `f`, and nothing else
/// changed.
pub open spec fn relinked(objects: Seq<ObjectView>, f: Forest) -> Seq<ObjectView> {
    Seq::new(
        objects.len(),
        |i: int|
            ObjectView {
                id: objects[i].id,
                name: objects[i].name,
                pos: objects[i].pos,
                rot: objects[i].rot,
                scale: objects[i].scale,
                grounded: objects[i].grounded,
                components: objects[i].components,
                children: f[i].children,
                parent: f[i].parent,
            },
    )
}

/// Relinking gives the objects exactly the links asked for and changes
/// nothing else about them.
pub proof fn lemma_relinked_links(objects: Seq<ObjectView>, f: Forest)
    requires
        f.len() == objects.len(),
    ensures
        links_of(relinked(objects, f)) == f,
        relinked(objects, links_of(objects)) == objects,
        forall|i: int|
            0 <= i < objects.len() ==> {
                &&& (#[trigger] relinked(objects, f)[i]).id == objects[i].id
                &&& relinked(objects, f)[i].name == objects[i].name
                &&& relinked(objects, f)[i].pos == objects[i].pos
                &&& relinked(objects, f)[i].rot == objects[i].rot
                &&& relinked(objects, f)[i].scale == objects[i].scale
                &&& relinked(objects, f)[i].grounded == objects[i].grounded
                &&& relinked(objects, f)[i].components == objects[i].components
            },
{
    assert(links_of(relinked(objects, f)) =~= f);
    assert(relinked(objects, links_of(objects)) =~= objects);
}

/// A new object as it enters a scene: at the origin, unturned, at unit scale,
/// with no components and no links.
pub open spec fn fresh_object(id: ObjectId, name: Seq<char>) -> ObjectView {
    ObjectView {
        id,
        name,
        pos: Vector3 { x: 0, y: 0, z: 0 },
        rot: Vector3 { x: 0, y: 0, z: 0 },
        scale: Vector3 {
            x: crate::vectors::UNIT,
            y: crate::vectors::UNIT,
            z: crate::vectors::UNIT,
        },
        grounded: false,
        components: Seq::empty(),
        children: Seq::empty(),
        parent: None,
    }
}

/// A list of objects is sound as a scene: there is a first object, the links
/// form a forest of trees, and every object knows its own handle.
pub open spec fn objects_wf(objects: Seq<ObjectView>) -> bool {
    &&& objects.len() >= 1
    &&& is_forest(links_of(objects))
    &&& forall|i: int| 0 <= i < objects.len() ==> (#[trigger] objects[i]).id.index == i
}

/// The handle of the object that every scene starts with.
pub open spec fn root_id() -> ObjectId {
    ObjectId { index: 0 }
}

/// Two lists of objects differ in nothing that a handle depends on: they
/// hold the same objects with the same links, and each object holds
/// components of the same kinds.
pub open spec fn same_shape(a: Seq<ObjectView>, b: Seq<ObjectView>) -> bool {
    &&& a.len() == b.len()
    &&& forall|i: int|
        0 <= i < a.len() ==> {
            &&& (#[trigger] a[i]).id == b[i].id
            &&& a[i].parent == b[i].parent
            &&& a[i].children == b[i].children
            &&& a[i].components.len() == b[i].components.len()
            &&& forall|j: int|
                0 <= j < a[i].components.len() ==> (#[trigger] a[i].components[j]).spec_kind()
                    == b[i].components[j].spec_kind()
        }
}

/// Lists of the same shape hold the same links.
pub proof fn lemma_same_shape_links(a: Seq<ObjectView>, b: Seq<ObjectView>)
    requires
        same_shape(a, b),
    ensures
        links_of(a) == links_of(b),
{
    assert(links_of(a) =~= links_of(b));
}

/// Having the same shape carries over from one list to the next.
pub proof fn lemma_same_shape_trans(a: Seq<ObjectView>, b: Seq<ObjectView>, c: Seq<ObjectView>)
    requires
        same_shape(a, b),
        same_shape(b, c),
    ensures
        same_shape(a, c),
{
    assert forall|i: int| 0 <= i < a.len() implies {
        &&& (#[trigger] a[i]).id == c[i].id
        &&& a[i].parent == c[i].parent
        &&& a[i].children == c[i].children
        &&& a[i].components.len() == c[i].components.len()
        &&& forall|j: int|
            0 <= j < a[i].components.len() ==> (#[trigger] a[i].components[j]).spec_kind()
                == c[i].components[j].spec_kind()
    } by {
        assert(b[i].id == c[i].id);
        assert forall|j: int| 0 <= j < a[i].components.len() implies (#[trigger] a[i].components[j]).spec_kind()
            == c[i].components[j].spec_kind() by {
            assert(b[i].components[j].spec_kind() == c[i].components[j].spec_kind());
        }
    }
}

/// A list of objects of the same shape as a sound one is sound.
pub proof fn lemma_same_shape_wf(a: Seq<ObjectView>, b: Seq<ObjectView>)
    requires
        objects_wf(a),
        same_shape(a, b),
    ensures
        objects_wf(b),
{
    lemma_same_shape_links(a, b);
    assert forall|i: int| 0 <= i < b.len() implies (#[trigger] b[i]).id.index == i by {
        assert(a[i].id == b[i].id);
    }
}

/// Whether two handles name the same object.
pub fn same_object(a: ObjectId, b: ObjectId) -> (same: bool)
    ensures
        same == (a == b),
{
    a.index == b.index
}

impl Scene {
    /// The links between the objects.
    pub open spec fn links(&self) -> Forest {
        links_of(self@)
    }

    /// `id` names an object of this scene.
    pub open spec fn has(&self, id: ObjectId) -> bool {
        id.index < self@.len()
    }

    /// The scene is sound: it holds its first object, the links form a
    /// forest of trees, and every object knows its own handle.
    pub open spec fn wf(&self) -> bool {
        objects_wf(self@)
    }

    /// A scene with one object: a parentless object named "root" in the
    /// first slot, which stays there for as long as the scene lives.
    pub fn new() -> (scene: Scene)
        ensures
            scene.wf(),
            scene@.len() == 1,
            scene@[0] == fresh_object(root_id(), "root"@),
    {
        let mut objects: Vec<GameObject> = Vec::new();
        objects.push(
            GameObject {
                id: ObjectId { index: 0 },
                name: "root".to_owned(),
                pos: Vector3::zero(),
                rot: Vector3::zero(),
                scale: Vector3::one(),
                grounded: false,
                components: Vec::new(),
                children: Vec::new(),
                parent: None,
            },
        );
        let scene = Scene { objects };
        proof {
            let f = scene.links();
            assert(scene@ =~= seq![fresh_object(root_id(), "root"@)]);
            assert forall|x: ObjectId| in_forest(f, x) implies #[trigger] rooted(f, x) by {
                assert(ancestor(f, x, 0) == Some(x));
                assert(ancestor(f, x, 1) is None);
            }
        }
        scene
    }

    /// The first object of the scene.
    pub fn root(&self) -> (root: ObjectId)
        ensures
            root == root_id(),
    {
        ObjectId { index: 0 }
    }

    /// The number of objects.
    pub fn len(&self) -> (n: usize)
        ensures
            n == self@.len(),
    {
        self.objects.len()
    }

    /// Whether `id` names an object of this scene.
    pub fn contains(&self, id: ObjectId) -> (b: bool)
        ensures
            b == self.has(id),
    {
        id.index < self.objects.len()
    }

    /// The object that `id` names.
    pub fn get(&self, id: ObjectId) -> (obj: &GameObject)
        requires
            self.has(id),
        ensures
            obj@ == self@[id.index as int],
    {
        &self.objects[id.index]
    }
}

impl GameObject {
    /// The position of the object.
    pub fn get_pos(&self) -> (pos: Vector3)
        ensures
            pos == self@.pos,
    {
        self.pos
    }

    /// Moves the object `slf` to `pos`.
    pub fn set_pos(scene: &mut Scene, slf: ObjectId, pos: Vector3)
        requires
            old(scene).has(slf),
        ensures
            final(scene)@ == old(scene)@.update(
                slf.index as int,
                ObjectView { pos, ..old(scene)@[slf.index as int] },
            ),
            same_shape(old(scene)@, final(scene)@),
            old(scene).wf() ==> final(scene).wf(),
    {
        let ghost before = scene@;
        proof {
            assert(scene@[slf.index as int] == scene.objects@[slf.index as int]@);
        }
        scene.objects[slf.index].pos = pos;
        proof {
            assert(scene@ =~= before.update(
                slf.index as int,
                ObjectView { pos, ..before[slf.index as int] },
            ));
            if objects_wf(before) {
                lemma_same_shape_wf(before, scene@);
            }
        }
    }

    /// The name of the object.
    pub fn get_name(&self) -> (name: &str)
        ensures
            name@ == self@.name,
    {
        self.name.as_str()
    }

    /// Whether the last move of the object ended on ground.
    pub fn is_grounded(&self) -> (grounded: bool)
        ensures
            grounded == self@.grounded,
    {
        self.grounded
    }

    /// The handle of the object.
    pub fn get_id(&self) -> (id: ObjectId)
        ensures
            id == self@.id,
    {
        self.id
    }

    /// The parent of the object, or `None` for a root.
    pub fn get_parent(&self) -> (parent: Option<ObjectId>)
        ensures
            parent == self@.parent,
    {
        self.parent
    }

    /// The direct children of the object, in attachment order, as a list of
    /// its own that later changes to the graph do not touch.
    pub fn get_children(&self) -> (v: Vec<ObjectId>)
        ensures
            v@ == self@.children,
    {
        let mut v: Vec<ObjectId> = Vec::new();
        v.reserve(self.children.len());
        let mut i: usize = 0;
        while i < self.children.len()
            invariant
                i <= self.children@.len(),
                v@ == self.children@.subrange(0, i as int),
            decreases self.children@.len() - i,
        {
            v.push(self.children[i]);
            assert(v@ =~= self.children@.subrange(0, i + 1));
            i += 1;
        }
        assert(v@ =~= self@.children);
        v
    }

    /// Adds a new parentless object named `name` to the scene and, if
    /// `parent` is given, puts it under that object as its last child.
    pub fn create_empty(scene: &mut Scene, name: String, parent: Option<ObjectId>) -> (id:
        ObjectId)
        requires
            old(scene).wf(),
            parent matches Some(p) ==> old(scene).has(p),
        ensures
            final(scene).wf(),
            id.index == old(scene)@.len(),
            final(scene)@ == relinked(
                old(scene)@.push(fresh_object(id, name@)),
                reparented(links_of(old(scene)@.push(fresh_object(id, name@))), id, parent),
            ),
    {
        let id = ObjectId { index: scene.objects.len() };
        let ghost before = scene@;
        let ghost fresh = fresh_object(id, name@);
        scene.objects.push(
            GameObject {
                id,
                name,
                pos: Vector3::zero(),
                rot: Vector3::zero(),
                scale: Vector3::one(),
                grounded: false,
                components: Vec::new(),
                children: Vec::new(),
                parent: None,
            },
        );
        proof {
            assert(scene@ =~= before.push(fresh));
            lemma_fresh_object(before, fresh);
            let f = scene.links();
            assert(detached(f, id) == f);
            assert(scene@ =~= relinked(scene@, f));
            if let Some(p) = parent {
                lemma_leaf_has_no_descendant(f, p, id);
            }
        }
        GameObject::set_parent(scene, id, parent);
        id
    }

    /// Moves `slf` under `parent`, or makes it a root for `None`. The object
    /// is first taken out of the children of its old parent, if it has one,
    /// and then appended to the children of the new one. The new parent must
    /// not be `slf` or lie below it, so that the graph stays a forest.
    pub fn set_parent(scene: &mut Scene, slf: ObjectId, parent: Option<ObjectId>)
        requires
            old(scene).wf(),
            old(scene).has(slf),
            may_reparent(old(scene).links(), slf, parent),
        ensures
            final(scene).wf(),
            final(scene)@ == relinked(old(scene)@, reparented(old(scene).links(), slf, parent)),
    {
        let ghost before = scene@;
        let ghost f0 = scene.links();
        let old_parent = scene.objects[slf.index].parent;
        match old_parent {
            Some(p) => {
                proof {
                    assert(parent_of(f0, slf) == Some(p));
                    assert(in_forest(f0, slf));
                }
                GameObject::remove_child(scene, p, slf);
            },
            None => {
                proof {
                    assert(parent_of(f0, slf) is None);
                    assert(scene@ =~= relinked(before, detached(f0, slf)));
                }
            },
        }
        let ghost f1 = detached(f0, slf);
        proof {
            lemma_detached(f0, slf);
            assert(scene.links() =~= f1);
        }
        match parent {
            Some(p) => {
                proof {
                    lemma_detached_below(f0, slf, p);
                    lemma_attached(f1, slf, p);
                }
                scene.objects[p.index].children.push(slf);
                scene.objects[slf.index].parent = Some(p);
                proof {
                    let f2 = attached(f1, slf, p);
                    assert(scene@ =~= relinked(before, f2)) by {
                        assert forall|i: int| 0 <= i < before.len() implies #[trigger] scene@[i]
                            == relinked(before, f2)[i] by {
                            assert(relinked(before, f1)[i].id == before[i].id);
                        }
                    }
                    assert(scene.links() =~= f2);
                }
            },
            None => {
                scene.objects[slf.index].parent = None;
                proof {
                    assert(scene@ =~= relinked(before, f1));
                    assert(scene.links() =~= f1);
                }
            },
        }
    }

    /// Takes `child` out of the children of `slf` and leaves it without a
    /// parent. `child` must be a child of `slf`.
    pub fn remove_child(scene: &mut Scene, slf: ObjectId, child: ObjectId)
        requires
            old(scene).wf(),
            old(scene).has(child),
            parent_of(old(scene).links(), child) == Some(slf),
        ensures
            final(scene).wf(),
            final(scene)@ == relinked(old(scene)@, detached(old(scene).links(), child)),
    {
        let ghost before = scene@;
        let ghost f0 = scene.links();
        proof {
            assert(in_forest(f0, child));
            assert(in_forest(f0, slf));
            assert(children_of(f0, slf).contains(child));
            assert(children_of(f0, slf) == scene.objects@[slf.index as int]@.children);
            lemma_detached(f0, child);
            crate::tree::lemma_parent_differs(f0, child);
        }
        let n = scene.objects[slf.index].children.len();
        let mut idx: usize = 0;
        while idx < n && !same_object(scene.objects[slf.index].children[idx], child)
            invariant
                scene@ == before,
                slf.index < scene.objects@.len(),
                n == scene.objects@[slf.index as int].children@.len(),
                idx <= n,
                scene.objects@[slf.index as int].children@ == children_of(f0, slf),
                children_of(f0, slf).contains(child),
                forall|j: int| 0 <= j < idx ==> children_of(f0, slf)[j] != child,
            decreases n - idx,
        {
            idx += 1;
        }
        proof {
            let kids = children_of(f0, slf);
            let at = kids.index_of(child);
            assert(0 <= at < kids.len() && kids[at] == child);
            assert(idx < n);
            assert(kids.no_duplicates());
            assert(idx == at);
        }
        scene.objects[slf.index].children.remove(idx);
        scene.objects[child.index].parent = None;
        proof {
            let f1 = detached(f0, child);
            assert(scene@ =~= relinked(before, f1)) by {
                assert forall|i: int| 0 <= i < before.len() implies #[trigger] scene@[i]
                    == relinked(before, f1)[i] by {
                    if i == slf.index {
                        assert(f1[i].children == children_of(f1, slf));
                    }
                }
            }
            assert(scene.links() =~= f1);
        }
    }
}

impl GameObject {
    /// Whether `x` lies below `a` in the graph, at any depth.
    pub fn is_below(scene: &Scene, x: ObjectId, a: ObjectId) -> (below: bool)
        requires
            scene.wf(),
            scene.has(x),
        ensures
            below == is_descendant(scene.links(), x, a),
    {
        let ghost f = scene.links();
        let ghost end = choose|k: nat| ancestor(f, x, k) is None;
        proof {
            assert(in_forest(f, x));
            assert(rooted(f, x));
        }
        let mut cur = x;
        let ghost mut steps: nat = 0;
        loop
            invariant
                scene.wf(),
                f == scene.links(),
                in_forest(f, cur),
                ancestor(f, x, steps) == Some(cur),
                ancestor(f, x, end) is None,
                forall|j: nat| 1 <= j <= steps ==> ancestor(f, x, j) != Some(a),
            decreases end - steps,
        {
            proof {
                if steps >= end {
                    lemma_ancestor_none_stays(f, x, end, steps);
                }
                assert(scene@[cur.index as int] == scene.objects@[cur.index as int]@);
            }
            match scene.objects[cur.index].parent {
                None => {
                    proof {
                        assert(ancestor(f, x, steps + 1) is None);
                        assert forall|j: nat| j >= 1 implies ancestor(f, x, j) != Some(a) by {
                            if j > steps {
                                lemma_ancestor_none_stays(f, x, steps + 1, j);
                            }
                        }
                    }
                    return false;
                },
                Some(p) => {
                    proof {
                        assert(parent_of(f, cur) == Some(p));
                        assert(ancestor(f, x, steps + 1) == Some(p));
                    }
                    if same_object(p, a) {
                        return true;
                    }
                    cur = p;
                    proof {
                        steps = steps + 1;
                    }
                },
            }
        }
    }

    /// Whether `slf` may be moved under `parent`: always for `None`, and for an
    /// object of the scene that is not `slf` and does not lie below it.
    pub fn can_set_parent(scene: &Scene, slf: ObjectId, parent: Option<ObjectId>) -> (ok: bool)
        requires
            scene.wf(),
            scene.has(slf),
        ensures
            ok == may_reparent(scene.links(), slf, parent),
    {
        match parent {
            None => true,
            Some(q) => {
                if !scene.contains(q) || same_object(q, slf) {
                    false
                } else {
                    !GameObject::is_below(scene, q, slf)
                }
            },
        }
    }

    /// All objects below `slf`, breadth first: the children of `slf`, then
    /// the children of each listed object in turn. Every descendant is listed
    /// exactly once.
    pub fn get_all_children(scene: &Scene, slf: ObjectId) -> (v: Vec<ObjectId>)
        requires
            scene.wf(),
            scene.has(slf),
        ensures
            is_breadth_first(scene.links(), slf, v@),
            v@.no_duplicates(),
            forall|x: ObjectId| v@.contains(x) <==> is_descendant(scene.links(), x, slf),
            v@.len() == descendants(scene.links(), slf).len(),
    {
        let ghost f = scene.links();
        let mut v: Vec<ObjectId> = Vec::new();
        let mut q: VecDeque<ObjectId> = VecDeque::new();
        proof {
            assert(in_forest(f, slf));
            assert(scene@[slf.index as int] == scene.objects@[slf.index as int]@);
            assert(children_of(f, slf) == scene.objects@[slf.index as int].children@);
            assert(children_of(f, slf).no_duplicates());
        }
        let top = &scene.objects[slf.index].children;
        let mut j: usize = 0;
        while j < top.len()
            invariant
                scene.wf(),
                f == scene.links(),
                in_forest(f, slf),
                top@ == children_of(f, slf),
                j <= top@.len(),
                v@ == top@.subrange(0, j as int),
                q@ == v@,
            decreases top@.len() - j,
        {
            q.push_back(top[j]);
            v.push(top[j]);
            proof {
                assert(v@ =~= top@.subrange(0, j + 1));
            }
            j += 1;
        }
        proof {
            assert(v@ =~= children_of(f, slf));
            assert(q@ =~= v@.subrange(0, v@.len() as int));
            assert forall|i: int| 0 <= i < v@.len() implies is_descendant(f, #[trigger] v@[i], slf) by {
                assert(parent_of(f, children_of(f, slf)[i]) == Some(slf));
                lemma_child_is_descendant(f, v@[i], slf, slf);
            }
        }
        let ghost mut head: nat = 0;
        while q.len() > 0
            invariant
                scene.wf(),
                f == scene.links(),
                in_forest(f, slf),
                head <= v@.len(),
                q@ == v@.subrange(head as int, v@.len() as int),
                v@ == expansion(f, slf, v@, head),
                forall|k: nat| k < head ==> (#[trigger] expansion(f, slf, v@, k)).len() > k,
                v@.no_duplicates(),
                forall|i: int| 0 <= i < v@.len() ==> is_descendant(f, #[trigger] v@[i], slf),
            decreases f.len() - head,
        {
            let ghost base = v@;
            proof {
                assert forall|i: int| 0 <= i < base.len() implies (#[trigger] base[i]).index
                    < f.len() by {
                    lemma_descendant_in_forest(f, base[i], slf);
                }
                lemma_distinct_objects_bounded(base, f.len());
                assert(q@[0] == base[head as int]);
            }
            let current = q.pop_front().unwrap();
            proof {
                assert(current == base[head as int]);
                lemma_descendant_in_forest(f, current, slf);
                assert(scene@[current.index as int] == scene.objects@[current.index as int]@);
                assert(children_of(f, current) == scene.objects@[current.index as int].children@);
                assert(children_of(f, current).no_duplicates());
                assert(q@ =~= v@.subrange(head as int + 1, v@.len() as int));
            }
            let kids = &scene.objects[current.index].children;
            v.reserve(kids.len());
            j = 0;
            while j < kids.len()
                invariant
                    scene.wf(),
                    f == scene.links(),
                    in_forest(f, slf),
                    in_forest(f, current),
                    head < base.len(),
                    current == base[head as int],
                    base == expansion(f, slf, base, head),
                    base.no_duplicates(),
                    forall|i: int| 0 <= i < base.len() ==> is_descendant(f, #[trigger] base[i], slf),
                    kids@ == children_of(f, current),
                    kids@.no_duplicates(),
                    j <= kids@.len(),
                    v@ == base + kids@.subrange(0, j as int),
                    q@ == v@.subrange(head as int + 1, v@.len() as int),
                    v@.no_duplicates(),
                    forall|i: int| 0 <= i < v@.len() ==> is_descendant(f, #[trigger] v@[i], slf),
                decreases kids@.len() - j,
            {
                let c = kids[j];
                proof {
                    assert(parent_of(f, children_of(f, current)[j as int]) == Some(current));
                    lemma_unexpanded_child_is_new(f, slf, base, head, c);
                    lemma_child_is_descendant(f, c, current, slf);
                    let w = v@.push(c);
                    assert forall|a: int, b: int|
                        0 <= a < w.len() && 0 <= b < w.len() && a != b implies w[a] != w[b] by {
                        if a == v@.len() || b == v@.len() {
                            let o = if a == v@.len() {
                                b
                            } else {
                                a
                            };
                            if o < base.len() {
                                assert(base.contains(w[o]));
                            } else {
                                assert(w[o] == kids@[o - base.len()]);
                            }
                        }
                    }
                }
                q.push_back(c);
                v.push(c);
                proof {
                    assert(v@ =~= base + kids@.subrange(0, j + 1));
                    assert(q@ =~= v@.subrange(head as int + 1, v@.len() as int));
                }
                j += 1;
            }
            proof {
                assert(kids@.subrange(0, j as int) =~= kids@);
                lemma_expansion_prefix(f, slf, v@, base, head);
                assert(v@[head as int] == current);
                assert(v@ == expansion(f, slf, v@, head + 1));
                assert forall|k: nat| k < head + 1 implies (#[trigger] expansion(f, slf, v@, k)).len()
                    > k by {
                    lemma_expansion_prefix(f, slf, v@, base, k);
                }
                head = head + 1;
            }
        }
        proof {
            assert(head == v@.len());
            assert forall|x: ObjectId| is_descendant(f, x, slf) implies in_forest(f, x) by {
                lemma_descendant_in_forest(f, x, slf);
            }
            assert forall|x: ObjectId| v@.contains(x) <==> is_descendant(f, x, slf) by {
                if is_descendant(f, x, slf) {
                    lemma_breadth_first_complete(f, slf, v@, x);
                }
                if v@.contains(x) {
                    let i = choose|i: int| 0 <= i < v@.len() && v@[i] == x;
                    assert(is_descendant(f, v@[i], slf));
                }
            }
            lemma_breadth_first_count(f, slf, v@);
        }
        v
    }
}

/// A forest stays a forest when an object without links is added to it.
pub proof fn lemma_fresh_object(objects: Seq<ObjectView>, fresh: ObjectView)
    requires
        is_forest(links_of(objects)),
        fresh.parent is None,
        fresh.children.len() == 0,
    ensures
        is_forest(links_of(objects.push(fresh))),
{
    let f = links_of(objects);
    let g = links_of(objects.push(fresh));
    let x = ObjectId { index: objects.len() as usize };
    assert forall|y: ObjectId| in_forest(f, y) implies parent_of(g, y) == parent_of(f, y)
        && children_of(g, y) == children_of(f, y) by {
        assert(objects.push(fresh)[y.index as int] == objects[y.index as int]);
    }
    assert forall|y: ObjectId| in_forest(g, y) && !in_forest(f, y) implies parent_of(g, y)
        is None && children_of(g, y).len() == 0 by {
        assert(y.index == objects.len());
    }
    assert forall|p: ObjectId, k: int|
        in_forest(g, p) && 0 <= k < children_of(g, p).len() implies {
        &&& in_forest(g, #[trigger] children_of(g, p)[k])
        &&& parent_of(g, children_of(g, p)[k]) == Some(p)
    } by {
        assert(in_forest(f, p));
        let c = children_of(f, p)[k];
        assert(in_forest(f, c));
        assert(parent_of(f, c) == Some(p));
    }
    assert forall|p: ObjectId| in_forest(g, p) implies (#[trigger] children_of(
        g,
        p,
    )).no_duplicates() by {
        if in_forest(f, p) {
            assert(children_of(f, p).no_duplicates());
        }
    }
    assert forall|c: ObjectId| in_forest(g, c) && (#[trigger] parent_of(g, c)) is Some implies {
        &&& in_forest(g, parent_of(g, c)->0)
        &&& children_of(g, parent_of(g, c)->0).contains(c)
    } by {
        assert(in_forest(f, c));
        assert(parent_of(f, c) is Some);
        let p = parent_of(f, c)->0;
        assert(in_forest(f, p));
        assert(children_of(f, p).contains(c));
    }
    assert forall|y: ObjectId| in_forest(g, y) implies #[trigger] crate::tree::rooted(g, y) by {
        if in_forest(f, y) {
            assert(crate::tree::rooted(f, y));
            let k = choose|k: nat| crate::tree::ancestor(f, y, k) is None;
            lemma_fresh_chain(objects, fresh, y, k);
        } else {
            assert(crate::tree::ancestor(g, y, 0) == Some(y));
            assert(crate::tree::ancestor(g, y, 1) is None);
        }
    }
}

/// Adding an object without links changes no chain of parents that starts at
/// an older object.
proof fn lemma_fresh_chain(objects: Seq<ObjectView>, fresh: ObjectView, y: ObjectId, k: nat)
    requires
        crate::tree::links_agree(links_of(objects)),
        in_forest(links_of(objects), y),
    ensures
        crate::tree::ancestor(links_of(objects.push(fresh)), y, k) == crate::tree::ancestor(
            links_of(objects),
            y,
            k,
        ),
    decreases k,
{
    if k > 0 {
        let f = links_of(objects);
        lemma_fresh_chain(objects, fresh, y, (k - 1) as nat);
        match crate::tree::ancestor(f, y, (k - 1) as nat) {
            Some(a) => {
                crate::tree::lemma_ancestor_in_forest(f, y, (k - 1) as nat);
                assert(objects.push(fresh)[a.index as int] == objects[a.index as int]);
            },
            None => {},
        }
    }
}

/// Nothing lies below an object without children.
pub proof fn lemma_leaf_has_no_descendant(f: Forest, x: ObjectId, leaf: ObjectId)
    requires
        crate::tree::links_agree(f),
        in_forest(f, leaf),
        children_of(f, leaf).len() == 0,
    ensures
        !is_descendant(f, x, leaf),
{
    if is_descendant(f, x, leaf) {
        let k = choose|k: nat| k >= 1 && crate::tree::ancestor(f, x, k) == Some(leaf);
        lemma_child_of_ancestor(f, x, k);
    }
}

/// The object `k` links above `x` has a child.
proof fn lemma_child_of_ancestor(f: Forest, x: ObjectId, k: nat)
    requires
        crate::tree::links_agree(f),
        k >= 1,
        crate::tree::ancestor(f, x, k) is Some,
    ensures
        children_of(f, crate::tree::ancestor(f, x, k)->0).len() > 0,
{
    let below = crate::tree::ancestor(f, x, (k - 1) as nat)->0;
    assert(parent_of(f, below) is Some);
    assert(in_forest(f, below));
    assert(children_of(f, parent_of(f, below)->0).contains(below));
}

/// The handle of component `index` of object `owner`.
pub open spec fn handle_of(owner: ObjectId, index: int, kind: ComponentKind) -> CompRc {
    CompRc { rc: ComponentRef { owner, index: index as usize }, kind }
}

/// The handles of the components of kind `kind` among the first `k`
/// components of an object, in list order.
pub open spec fn handles_of_kind(obj: ObjectView, kind: ComponentKind, k: nat) -> Seq<CompRc>
    decreases k,
{
    if k == 0 {
        Seq::empty()
    } else {
        let before = handles_of_kind(obj, kind, (k - 1) as nat);
        if obj.components[k - 1].spec_kind() == kind {
            before.push(handle_of(obj.id, k - 1, kind))
        } else {
            before
        }
    }
}

/// The handles of all components of kind `kind` of an object, in list order.
pub open spec fn all_handles_of_kind(obj: ObjectView, kind: ComponentKind) -> Seq<CompRc> {
    handles_of_kind(obj, kind, obj.components.len())
}

/// The handles of the components of kind `kind` of the first `k` objects
/// that `ids` names, object by object.
pub open spec fn gathered(
    objects: Seq<ObjectView>,
    kind: ComponentKind,
    ids: Seq<ObjectId>,
    k: nat,
) -> Seq<CompRc>
    decreases k,
{
    if k == 0 {
        Seq::empty()
    } else {
        gathered(objects, kind, ids, (k - 1) as nat) + all_handles_of_kind(
            objects[ids[k - 1].index as int],
            kind,
        )
    }
}

/// The handles of the components of kind `kind` of `root` and of every object
/// below it: those of `root` first, then object by object in breadth-first
/// order.
pub open spec fn handles_below(objects: Seq<ObjectView>, root: ObjectId, kind: ComponentKind) -> Seq<
    CompRc,
> {
    let order = seq![root] + crate::tree::breadth_first_order(links_of(objects), root);
    gathered(objects, kind, order, order.len())
}

/// The first component of kind `kind` of an object, if it has one.
pub open spec fn first_handle_of_kind(obj: ObjectView, kind: ComponentKind) -> Option<CompRc> {
    if all_handles_of_kind(obj, kind).len() > 0 {
        Some(all_handles_of_kind(obj, kind)[0])
    } else {
        None
    }
}

/// An object with one more component.
pub open spec fn with_added(obj: ObjectView, c: Component) -> ObjectView {
    ObjectView { components: obj.components.push(c), ..obj }
}

/// The objects with the component that `rc` names replaced by `c`.
pub open spec fn with_component(objects: Seq<ObjectView>, rc: ComponentRef, c: Component) -> Seq<
    ObjectView,
> {
    objects.update(
        rc.owner.index as int,
        ObjectView {
            components: objects[rc.owner.index as int].components.update(rc.index as int, c),
            ..objects[rc.owner.index as int]
        },
    )
}

impl Scene {
    /// `rc` names a component of an object of this scene.
    pub open spec fn has_component(&self, rc: ComponentRef) -> bool {
        &&& self.has(rc.owner)
        &&& rc.index < self@[rc.owner.index as int].components.len()
    }

    /// The component that `rc` names.
    pub open spec fn component(&self, rc: ComponentRef) -> Component {
        self@[rc.owner.index as int].components[rc.index as int]
    }

    /// `h` names a component of this scene that has the kind that `h` claims.
    pub open spec fn holds(&self, h: CompRc) -> bool {
        self.has_component(h.rc) && self.component(h.rc).spec_kind() == h.kind
    }
}

/// Whether two kinds are the same.
pub fn same_kind(a: ComponentKind, b: ComponentKind) -> (same: bool)
    ensures
        same == (a == b),
{
    match (a, b) {
        (ComponentKind::Collider, ComponentKind::Collider) => true,
        (ComponentKind::Sprite, ComponentKind::Sprite) => true,
        (ComponentKind::Test, ComponentKind::Test) => true,
        (ComponentKind::Wasdy, ComponentKind::Wasdy) => true,
        _ => false,
    }
}

/// Whether two handles name the same component.
pub fn same_component(a: ComponentRef, b: ComponentRef) -> (same: bool)
    ensures
        same == (a == b),
{
    a.owner.index == b.owner.index && a.index == b.index
}

/// Every handle that a lookup by kind lists names a component of the object,
/// of that kind.
pub proof fn lemma_handles_hold(obj: ObjectView, kind: ComponentKind, k: nat)
    requires
        k <= obj.components.len(),
        obj.components.len() <= usize::MAX,
    ensures
        forall|j: int|
            0 <= j < handles_of_kind(obj, kind, k).len() ==> {
                let h = #[trigger] handles_of_kind(obj, kind, k)[j];
                &&& h.kind == kind
                &&& h.rc.owner == obj.id
                &&& h.rc.index < k
                &&& obj.components[h.rc.index as int].spec_kind() == kind
            },
    decreases k,
{
    if k > 0 {
        lemma_handles_hold(obj, kind, (k - 1) as nat);
    }
}

/// A lookup by kind lists every component of the kind: the handle of each
/// such component among the first `k` is in the list.
pub proof fn lemma_handles_complete(obj: ObjectView, kind: ComponentKind, k: nat, j: int)
    requires
        0 <= j < k <= obj.components.len(),
        obj.components[j].spec_kind() == kind,
    ensures
        handles_of_kind(obj, kind, k).contains(handle_of(obj.id, j, kind)),
    decreases k,
{
    let before = handles_of_kind(obj, kind, (k - 1) as nat);
    let all = handles_of_kind(obj, kind, k);
    if j == k - 1 {
        assert(all[all.len() - 1] == handle_of(obj.id, j, kind));
    } else {
        lemma_handles_complete(obj, kind, (k - 1) as nat, j);
        let i = choose|i: int| 0 <= i < before.len() && before[i] == handle_of(obj.id, j, kind);
        assert(all[i] == handle_of(obj.id, j, kind));
    }
}

/// A lookup by kind lists the components in the order in which they were
/// added.
pub proof fn lemma_handles_ordered(obj: ObjectView, kind: ComponentKind, k: nat)
    requires
        k <= obj.components.len(),
        obj.components.len() <= usize::MAX,
    ensures
        forall|a: int, b: int|
            0 <= a < b < handles_of_kind(obj, kind, k).len() ==> (#[trigger] handles_of_kind(
                obj,
                kind,
                k,
            )[a]).rc.index < (#[trigger] handles_of_kind(obj, kind, k)[b]).rc.index,
    decreases k,
{
    if k > 0 {
        lemma_handles_ordered(obj, kind, (k - 1) as nat);
        lemma_handles_hold(obj, kind, (k - 1) as nat);
    }
}

/// Gathering along a list of objects lists every component of the kind that
/// one of these objects holds.
pub proof fn lemma_gathered_complete(
    objects: Seq<ObjectView>,
    kind: ComponentKind,
    ids: Seq<ObjectId>,
    k: nat,
    i: int,
    j: int,
)
    requires
        0 <= i < k <= ids.len(),
        0 <= j < objects[ids[i].index as int].components.len(),
        objects[ids[i].index as int].components[j].spec_kind() == kind,
    ensures
        gathered(objects, kind, ids, k).contains(
            handle_of(objects[ids[i].index as int].id, j, kind),
        ),
    decreases k,
{
    let before = gathered(objects, kind, ids, (k - 1) as nat);
    let obj = objects[ids[k - 1].index as int];
    let more = all_handles_of_kind(obj, kind);
    let h = handle_of(objects[ids[i].index as int].id, j, kind);
    if i == k - 1 {
        lemma_handles_complete(obj, kind, obj.components.len(), j);
        let m = choose|m: int| 0 <= m < more.len() && more[m] == h;
        assert((before + more)[before.len() + m] == h);
    } else {
        lemma_gathered_complete(objects, kind, ids, (k - 1) as nat, i, j);
        let m = choose|m: int| 0 <= m < before.len() && before[m] == h;
        assert((before + more)[m] == h);
    }
}

/// A lookup by kind lists no handle twice.
pub proof fn lemma_handles_distinct(obj: ObjectView, kind: ComponentKind, k: nat)
    requires
        k <= obj.components.len(),
        obj.components.len() <= usize::MAX,
    ensures
        handles_of_kind(obj, kind, k).no_duplicates(),
    decreases k,
{
    if k > 0 {
        lemma_handles_distinct(obj, kind, (k - 1) as nat);
        lemma_handles_hold(obj, kind, (k - 1) as nat);
    }
}

/// Gathering handles along a list of distinct objects lists no handle twice,
/// and every handle listed belongs to one of these objects.
pub proof fn lemma_gathered_distinct(
    objects: Seq<ObjectView>,
    kind: ComponentKind,
    ids: Seq<ObjectId>,
    k: nat,
)
    requires
        k <= ids.len(),
        ids.no_duplicates(),
        forall|i: int| 0 <= i < ids.len() ==> (#[trigger] ids[i]).index < objects.len(),
        forall|i: int| 0 <= i < objects.len() ==> (#[trigger] objects[i]).id.index == i,
        forall|i: int| 0 <= i < objects.len() ==> (#[trigger] objects[i]).components.len()
            <= usize::MAX,
    ensures
        gathered(objects, kind, ids, k).no_duplicates(),
        forall|j: int|
            0 <= j < gathered(objects, kind, ids, k).len() ==> exists|i: int|
                0 <= i < k && ids[i] == (#[trigger] gathered(objects, kind, ids, k)[j]).rc.owner,
    decreases k,
{
    if k > 0 {
        lemma_gathered_distinct(objects, kind, ids, (k - 1) as nat);
        let before = gathered(objects, kind, ids, (k - 1) as nat);
        let obj = objects[ids[k - 1].index as int];
        let more = all_handles_of_kind(obj, kind);
        lemma_handles_distinct(obj, kind, obj.components.len());
        lemma_handles_hold(obj, kind, obj.components.len());
        assert(obj.id == ids[k - 1]);
        assert forall|a: int, b: int| 0 <= a < before.len() && 0 <= b < more.len() implies before[a]
            != more[b] by {
            let i = choose|i: int| 0 <= i < k - 1 && ids[i] == before[a].rc.owner;
            assert(more[b].rc.owner == ids[k - 1]);
        }
        vstd::seq_lib::lemma_no_dup_in_concat(before, more);
        assert forall|j: int| 0 <= j < (before + more).len() implies exists|i: int|
            0 <= i < k && ids[i] == (#[trigger] (before + more)[j]).rc.owner by {
            if j < before.len() {
                let i = choose|i: int| 0 <= i < k - 1 && ids[i] == before[j].rc.owner;
                assert(0 <= i < k && ids[i] == (before + more)[j].rc.owner);
            } else {
                assert((before + more)[j] == more[j - before.len()]);
                assert(ids[k - 1] == (before + more)[j].rc.owner);
            }
        }
    }
}

/// The list of handles of one kind starts with the first component of that
/// kind and is empty exactly when there is none.
pub proof fn lemma_first_handle(obj: ObjectView, kind: ComponentKind, k: nat)
    requires
        k <= obj.components.len(),
    ensures
        handles_of_kind(obj, kind, k).len() == 0 <==> forall|j: int|
            0 <= j < k ==> (#[trigger] obj.components[j]).spec_kind() != kind,
        forall|i: int|
            0 <= i < k && obj.components[i].spec_kind() == kind && (forall|j: int|
                0 <= j < i ==> (#[trigger] obj.components[j]).spec_kind() != kind)
                ==> handles_of_kind(obj, kind, k).len() > 0 && handles_of_kind(obj, kind, k)[0]
                == #[trigger] handle_of(obj.id, i, kind),
    decreases k,
{
    if k > 0 {
        lemma_first_handle(obj, kind, (k - 1) as nat);
        let before = handles_of_kind(obj, kind, (k - 1) as nat);
        if obj.components[k - 1].spec_kind() == kind {
            assert(before.push(handle_of(obj.id, k - 1, kind)).len() > 0);
        }
        assert forall|i: int|
            0 <= i < k && obj.components[i].spec_kind() == kind && (forall|j: int|
                0 <= j < i ==> (#[trigger] obj.components[j]).spec_kind() != kind) implies handles_of_kind(
            obj,
            kind,
            k,
        ).len() > 0 && handles_of_kind(obj, kind, k)[0] == #[trigger] handle_of(obj.id, i, kind) by {
            if i < k - 1 {
                assert(before.len() > 0);
                assert(before[0] == handle_of(obj.id, i, kind));
            } else {
                assert(before.len() == 0);
            }
        }
    }
}

/// Replacing a component by one of its kind keeps the shape.
pub proof fn lemma_with_component_shape(objects: Seq<ObjectView>, rc: ComponentRef, c: Component)
    requires
        rc.owner.index < objects.len(),
        rc.index < objects[rc.owner.index as int].components.len(),
        c.spec_kind() == objects[rc.owner.index as int].components[rc.index as int].spec_kind(),
    ensures
        same_shape(objects, with_component(objects, rc, c)),
{
}

impl GameObject {
    /// Appends `component` to the components of the object `slf`. An object
    /// may hold several components of one kind.
    pub fn add_component(scene: &mut Scene, slf: ObjectId, component: Component)
        requires
            old(scene).has(slf),
        ensures
            final(scene)@ == old(scene)@.update(
                slf.index as int,
                with_added(old(scene)@[slf.index as int], component),
            ),
            old(scene).wf() ==> final(scene).wf(),
    {
        let ghost before = scene@;
        proof {
            assert(scene@[slf.index as int] == scene.objects@[slf.index as int]@);
        }
        scene.objects[slf.index].components.push(component);
        proof {
            assert(scene@ =~= before.update(
                slf.index as int,
                with_added(before[slf.index as int], component),
            ));
            if objects_wf(before) {
                assert(links_of(scene@) =~= links_of(before));
            }
        }
    }

    /// The number of components of the object.
    pub fn component_count(&self) -> (n: usize)
        ensures
            n == self@.components.len(),
    {
        self.components.len()
    }

    /// The first component of kind `kind`, or `None` when the object has no
    /// such component.
    pub fn get_component(&self, kind: ComponentKind) -> (found: Option<CompRc>)
        ensures
            match found {
                Some(h) => {
                    &&& h.kind == kind
                    &&& h.rc.owner == self@.id
                    &&& h.rc.index < self@.components.len()
                    &&& self@.components[h.rc.index as int].spec_kind() == kind
                    &&& forall|j: int|
                        0 <= j < h.rc.index ==> (#[trigger] self@.components[j]).spec_kind() != kind
                },
                None => forall|j: int|
                    0 <= j < self@.components.len() ==> (#[trigger] self@.components[j]).spec_kind()
                        != kind,
            },
            found == first_handle_of_kind(self@, kind),
    {
        proof {
            lemma_first_handle(self@, kind, self@.components.len());
        }
        let mut i: usize = 0;
        while i < self.components.len()
            invariant
                i <= self.components@.len(),
                forall|j: int| 0 <= j < i ==> (#[trigger] self.components@[j]).spec_kind() != kind,
            decreases self.components@.len() - i,
        {
            if same_kind(self.components[i].kind(), kind) {
                proof {
                    lemma_first_handle(self@, kind, self@.components.len());
                    assert(handle_of(self@.id, i as int, kind) == (CompRc {
                        rc: ComponentRef { owner: self.id, index: i },
                        kind,
                    }));
                }
                return Some(CompRc { rc: ComponentRef { owner: self.id, index: i }, kind });
            }
            i += 1;
        }
        None
    }

    /// All components of kind `kind`, in list order.
    pub fn get_components(&self, kind: ComponentKind) -> (found: Vec<CompRc>)
        ensures
            found@ == all_handles_of_kind(self@, kind),
    {
        let mut found: Vec<CompRc> = Vec::new();
        let mut i: usize = 0;
        while i < self.components.len()
            invariant
                i <= self.components@.len(),
                found@ == handles_of_kind(self@, kind, i as nat),
            decreases self.components@.len() - i,
        {
            if same_kind(self.components[i].kind(), kind) {
                found.push(CompRc { rc: ComponentRef { owner: self.id, index: i }, kind });
            }
            i += 1;
        }
        found
    }

    /// Untyped handles of all components, in list order.
    pub fn get_all_components(&self) -> (all: Vec<ComponentRef>)
        ensures
            all@ == Seq::new(
                self@.components.len(),
                |i: int| ComponentRef { owner: self@.id, index: i as usize },
            ),
    {
        let mut all: Vec<ComponentRef> = Vec::new();
        let mut i: usize = 0;
        while i < self.components.len()
            invariant
                i <= self.components@.len(),
                all@ == Seq::new(
                    i as nat,
                    |j: int| ComponentRef { owner: self@.id, index: j as usize },
                ),
            decreases self.components@.len() - i,
        {
            all.push(ComponentRef { owner: self.id, index: i });
            proof {
                assert(all@ =~= Seq::new(
                    (i + 1) as nat,
                    |j: int| ComponentRef { owner: self@.id, index: j as usize },
                ));
            }
            i += 1;
        }
        all
    }

    /// The components of kind `kind` of `slf` and of every object below it:
    /// those of `slf` first, then object by object in breadth-first order.
    pub fn get_components_in_children(scene: &Scene, slf: ObjectId, kind: ComponentKind) -> (found:
        Vec<CompRc>)
        requires
            scene.wf(),
            scene.has(slf),
        ensures
            found@ == handles_below(scene@, slf, kind),
            found@.no_duplicates(),
            forall|i: int|
                0 <= i < found@.len() ==> scene.holds(#[trigger] found@[i]) && found@[i].kind
                    == kind,
    {
        let ghost f = scene.links();
        let mut found = scene.objects[slf.index].get_components(kind);
        let children = GameObject::get_all_children(scene, slf);
        let ghost order = seq![slf] + children@;
        proof {
            assert(order.no_duplicates()) by {
                crate::tree::lemma_no_self_descendant(f, slf);
                assert forall|a: int, b: int|
                    0 <= a < order.len() && 0 <= b < order.len() && a != b implies order[a]
                    != order[b] by {
                    if a > 0 {
                        assert(children@.contains(children@[a - 1]));
                    }
                    if b > 0 {
                        assert(children@.contains(children@[b - 1]));
                    }
                }
            }
            assert forall|j: int| 0 <= j < order.len() implies (#[trigger] order[j]).index
                < scene@.len() by {
                if j > 0 {
                    assert(children@.contains(children@[j - 1]));
                    lemma_descendant_in_forest(f, order[j], slf);
                }
            }
            assert forall|j: int| 0 <= j < scene@.len() implies (#[trigger] scene@[j]).components.len()
                <= usize::MAX by {
                assert(scene@[j] == scene.objects@[j]@);
                assert(scene.objects@[j].components.len() == scene@[j].components.len());
            }
            lemma_gathered_distinct(scene@, kind, order, order.len());
            let chosen = crate::tree::breadth_first_order(f, slf);
            crate::tree::lemma_breadth_first_unique(f, slf, children@, chosen);
            assert(scene@[slf.index as int] == scene.objects@[slf.index as int]@);
            assert(gathered(scene@, kind, order, 0) =~= Seq::<CompRc>::empty());
            assert(gathered(scene@, kind, order, 1) =~= all_handles_of_kind(
                scene@[slf.index as int],
                kind,
            ));
            assert(scene.objects@[slf.index as int].components.len()
                == scene@[slf.index as int].components.len());
            lemma_handles_hold(
                scene@[slf.index as int],
                kind,
                scene@[slf.index as int].components.len(),
            );
        }
        let mut i: usize = 0;
        while i < children.len()
            invariant
                scene.wf(),
                f == scene.links(),
                order == seq![slf] + children@,
                i <= children@.len(),
                forall|x: ObjectId| children@.contains(x) ==> is_descendant(f, x, slf),
                found@ == gathered(scene@, kind, order, (i + 1) as nat),
                gathered(scene@, kind, order, order.len()).no_duplicates(),
                forall|j: int|
                    0 <= j < found@.len() ==> scene.holds(#[trigger] found@[j]) && found@[j].kind
                        == kind,
            decreases children@.len() - i,
        {
            let child = children[i];
            proof {
                assert(children@.contains(child));
                lemma_descendant_in_forest(f, child, slf);
                assert(scene@[child.index as int] == scene.objects@[child.index as int]@);
                assert(order[i + 1] == child);
                assert(scene.objects@[child.index as int].components.len()
                    == scene@[child.index as int].components.len());
                lemma_handles_hold(
                    scene@[child.index as int],
                    kind,
                    scene@[child.index as int].components.len(),
                );
            }
            let mut more = scene.objects[child.index].get_components(kind);
            found.append(&mut more);
            i += 1;
        }
        found
    }
}

impl Scene {
    /// The component that `rc` names.
    pub fn get_component_ref(&self, rc: ComponentRef) -> (c: &Component)
        requires
            self.has_component(rc),
        ensures
            *c == self.component(rc),
    {
        proof {
            assert(self@[rc.owner.index as int] == self.objects@[rc.owner.index as int]@);
        }
        &self.objects[rc.owner.index].components[rc.index]
    }

    /// Whether `rc` names a component of an object of this scene.
    pub fn contains_component(&self, rc: ComponentRef) -> (b: bool)
        ensures
            b == self.has_component(rc),
    {
        proof {
            if rc.owner.index < self.objects@.len() {
                assert(self@[rc.owner.index as int] == self.objects@[rc.owner.index as int]@);
            }
        }
        rc.owner.index < self.objects.len() && rc.index
            < self.objects[rc.owner.index].components.len()
    }

    /// Replaces the component that `rc` names by `component`, which must be
    /// of the same kind.
    pub fn set_component(&mut self, rc: ComponentRef, component: Component)
        requires
            old(self).has_component(rc),
            component.spec_kind() == old(self).component(rc).spec_kind(),
        ensures
            final(self)@ == with_component(old(self)@, rc, component),
            same_shape(old(self)@, final(self)@),
    {
        let ghost before = self@;
        proof {
            assert(self@[rc.owner.index as int] == self.objects@[rc.owner.index as int]@);
        }
        self.objects[rc.owner.index].components[rc.index] = component;
        proof {
            assert(self@ =~= with_component(before, rc, component));
            lemma_with_component_shape(before, rc, component);
        }
    }
}

impl CompRc {
    /// A typed handle of the component that `rc` names, if `rc` names a
    /// component of the scene and that component is of kind `kind`.
    pub fn downcast_rc(scene: &Scene, rc: &ComponentRef, kind: ComponentKind) -> (h: Option<CompRc>)
        ensures
            h == if scene.has_component(*rc) && scene.component(*rc).spec_kind() == kind {
                Some(CompRc { rc: *rc, kind })
            } else {
                None::<CompRc>
            },
    {
        if !scene.contains_component(*rc) {
            return None;
        }
        if same_kind(scene.get_component_ref(*rc).kind(), kind) {
            Some(CompRc { rc: *rc, kind })
        } else {
            None
        }
    }

    /// The component that the handle names.
    pub fn borrow<'a>(&self, scene: &'a Scene) -> (c: &'a Component)
        requires
            scene.holds(*self),
        ensures
            *c == scene.component(self.rc),
    {
        scene.get_component_ref(self.rc)
    }

    /// The component that the handle names, for changing it.
    pub fn borrow_mut<'a>(&self, scene: &'a mut Scene) -> (c: &'a mut Component)
        requires
            old(scene).holds(*self),
        ensures
            *c == old(scene).component(self.rc),
            final(scene)@ == with_component(old(scene)@, self.rc, *final(c)),
    {
        let owner = self.rc.owner.index;
        proof {
            let objects = scene.objects@;
            assert(scene@[owner as int] == objects[owner as int]@);
            assert forall|o: GameObject| #[trigger]
                views_of(objects.update(owner as int, o)) == views_of(objects).update(
                    owner as int,
                    o@,
                ) by {
                assert(views_of(objects.update(owner as int, o)) =~= views_of(objects).update(
                    owner as int,
                    o@,
                ));
            }
        }
        &mut scene.objects[owner].components[self.rc.index]
    }

    /// The untyped handle.
    pub fn take_rc(self) -> (rc: ComponentRef)
        ensures
            rc == self.rc,
    {
        self.rc
    }

    /// Whether both handles name the same component.
    pub fn ptr_eq(&self, other: &CompRc) -> (same: bool)
        ensures
            same == (self.rc == other.rc),
    {
        same_component(self.rc, other.rc)
    }
}

/// Adding components never changes the handles that a lookup had listed
/// before: the old list is the start of the new one.
pub proof fn lemma_handles_after_add(obj: ObjectView, c: Component, kind: ComponentKind, k: nat)
    requires
        k <= obj.components.len(),
    ensures
        handles_of_kind(with_added(obj, c), kind, k) == handles_of_kind(obj, kind, k),
    decreases k,
{
    if k > 0 {
        lemma_handles_after_add(obj, c, kind, (k - 1) as nat);
        assert(with_added(obj, c).components[k - 1] == obj.components[k - 1]);
    }
}

/// Looking a component up by kind finds nothing on an object that has none
/// of that kind. Once a component of the kind has been added, the lookup
/// finds that very component, and the handle it returns is the same in every
/// later lookup, whatever is added afterwards.
pub proof fn lemma_lookup_after_add(obj: ObjectView, c: Component, later: Component)
    requires
        forall|j: int|
            0 <= j < obj.components.len() ==> (#[trigger] obj.components[j]).spec_kind()
                != c.spec_kind(),
    ensures
        first_handle_of_kind(obj, c.spec_kind()) is None,
        first_handle_of_kind(with_added(obj, c), c.spec_kind()) == Some(
            handle_of(obj.id, obj.components.len() as int, c.spec_kind()),
        ),
        with_added(obj, c).components[obj.components.len() as int] == c,
        first_handle_of_kind(with_added(with_added(obj, c), later), c.spec_kind())
            == first_handle_of_kind(with_added(obj, c), c.spec_kind()),
{
    let kind = c.spec_kind();
    let n = obj.components.len();
    let one = with_added(obj, c);
    let two = with_added(one, later);
    lemma_first_handle(obj, kind, n);
    lemma_first_handle(one, kind, n + 1);
    lemma_first_handle(two, kind, n + 2);
    assert(one.components[n as int].spec_kind() == kind);
    assert forall|j: int| 0 <= j < n implies (#[trigger] one.components[j]).spec_kind() != kind by {
        assert(one.components[j] == obj.components[j]);
    }
    assert(handles_of_kind(one, kind, n + 1)[0] == handle_of(one.id, n as int, kind));
    assert(two.components[n as int].spec_kind() == kind);
    assert forall|j: int| 0 <= j < n implies (#[trigger] two.components[j]).spec_kind() != kind by {
        assert(two.components[j] == obj.components[j]);
    }
    assert(handles_of_kind(two, kind, n + 2)[0] == handle_of(two.id, n as int, kind));
}

/// The shape with which the component `c` collides: the hitbox of a collider.
pub open spec fn hitbox_of(c: Component) -> Polygon {
    match c {
        Component::Collider(col) => col.hitbox,
        _ => arbitrary(),
    }
}

/// The component `c` with its hitbox put around `center`; a component that
/// is no collider is left as it is.
pub open spec fn recentered(c: Component, center: Vector2) -> Component {
    match c {
        Component::Collider(col) => Component::Collider(
            Collider {
                owner: col.owner,
                hitbox: Polygon { center, verticies: col.hitbox.verticies },
            },
        ),
        _ => c,
    }
}

/// The component `c` with `owner` recorded as the object that owns it; a
/// component that is no collider is left as it is.
pub open spec fn adopted(c: Component, owner: ObjectId) -> Component {
    match c {
        Component::Collider(col) => Component::Collider(
            Collider { owner: Some(owner), hitbox: col.hitbox },
        ),
        _ => c,
    }
}

/// The objects with the hitbox of the collider that `rc` names put around the
/// position of the object that owns it.
pub open spec fn refreshed(objects: Seq<ObjectView>, rc: ComponentRef) -> Seq<ObjectView> {
    let owner = objects[rc.owner.index as int];
    with_component(objects, rc, recentered(owner.components[rc.index as int], owner.pos.spec_xy()))
}

/// The objects after `obj` has made its move: shifted by `offset` and no
/// longer taken to stand on ground.
pub open spec fn moved(objects: Seq<ObjectView>, obj: ObjectId, offset: Vector3) -> Seq<
    ObjectView,
> {
    objects.update(
        obj.index as int,
        ObjectView {
            pos: objects[obj.index as int].pos.spec_plus(offset),
            grounded: false,
            ..objects[obj.index as int]
        },
    )
}

/// The objects after `obj` has been pushed by `push`; a push with an upward
/// part means that `obj` stands on ground.
pub open spec fn pushed(objects: Seq<ObjectView>, obj: ObjectId, push: Vector2) -> Seq<ObjectView> {
    objects.update(
        obj.index as int,
        ObjectView {
            pos: objects[obj.index as int].pos.spec_plus(Vector3 { x: push.x, y: push.y, z: 0 }),
            grounded: objects[obj.index as int].grounded || push.y > 0,
            ..objects[obj.index as int]
        },
    )
}

/// The push that frees the collider `mine` from the collider `other`, once
/// both hitboxes have been put around the positions of their owners; `None`
/// when the two do not overlap, and for `mine` itself.
pub open spec fn push_against(objects: Seq<ObjectView>, mine: ComponentRef, other: ComponentRef) -> Option<
    Vector2,
> {
    if other == mine {
        None
    } else {
        let ready = refreshed(refreshed(objects, mine), other);
        hitbox_of(ready[mine.owner.index as int].components[mine.index as int]).overlap_push(
            &hitbox_of(ready[other.owner.index as int].components[other.index as int]),
        )
    }
}

/// The objects after the collider `mine` of `obj` has been tested against
/// the collider `other`: both hitboxes follow their owners, and `obj` is
/// pushed out of `other` if the two overlap. Testing `mine` against itself
/// changes nothing.
pub open spec fn resolve_one(
    objects: Seq<ObjectView>,
    obj: ObjectId,
    mine: ComponentRef,
    other: ComponentRef,
) -> Seq<ObjectView> {
    if other == mine {
        objects
    } else {
        let ready = refreshed(refreshed(objects, mine), other);
        match push_against(objects, mine, other) {
            Some(push) => pushed(ready, obj, push),
            None => ready,
        }
    }
}

/// The objects after the collider `mine` of `obj` has been tested against
/// the first `k` of `others`, one after the other.
pub open spec fn resolve_all(
    objects: Seq<ObjectView>,
    obj: ObjectId,
    mine: ComponentRef,
    others: Seq<CompRc>,
    k: nat,
) -> Seq<ObjectView>
    decreases k,
{
    if k == 0 {
        objects
    } else {
        resolve_one(resolve_all(objects, obj, mine, others, (k - 1) as nat), obj, mine, others[k - 1].rc)
    }
}

/// The objects after `obj` has moved by `offset` and has been pushed out of
/// whatever it then overlapped: the first collider of `obj` is tested against
/// every collider at and below `root`, in breadth-first order. An object
/// without a collider just moves.
pub open spec fn move_result(
    objects: Seq<ObjectView>,
    root: ObjectId,
    obj: ObjectId,
    offset: Vector3,
) -> Seq<ObjectView> {
    let start = moved(objects, obj, offset);
    match first_handle_of_kind(start[obj.index as int], ComponentKind::Collider) {
        None => start,
        Some(mine) => {
            let others = handles_below(start, root, ComponentKind::Collider);
            resolve_all(start, obj, mine.rc, others, others.len())
        },
    }
}

impl Scene {
    /// The hitbox of the collider that `rc` names.
    pub fn hitbox(&self, rc: ComponentRef) -> (hitbox: &Polygon)
        requires
            self.has_component(rc),
            self.component(rc).spec_kind() == ComponentKind::Collider,
        ensures
            *hitbox == hitbox_of(self.component(rc)),
    {
        match self.get_component_ref(rc) {
            Component::Collider(c) => &c.hitbox,
            _ => vstd::pervasive::unreached(),
        }
    }

    /// Puts the hitbox of the collider that `rc` names around the position
    /// of the object that owns it.
    pub fn refresh_collider(&mut self, rc: ComponentRef)
        requires
            old(self).has_component(rc),
            old(self).component(rc).spec_kind() == ComponentKind::Collider,
        ensures
            final(self)@ == refreshed(old(self)@, rc),
            same_shape(old(self)@, final(self)@),
    {
        let ghost before = self@;
        proof {
            assert(self@[rc.owner.index as int] == self.objects@[rc.owner.index as int]@);
        }
        let center = self.objects[rc.owner.index].pos.xy();
        match &mut self.objects[rc.owner.index].components[rc.index] {
            Component::Collider(c) => {
                c.hitbox.center = center;
            },
            _ => {},
        }
        proof {
            assert(self@ =~= refreshed(before, rc));
            lemma_with_component_shape(
                before,
                rc,
                recentered(before[rc.owner.index as int].components[rc.index as int], center),
            );
        }
    }

    /// Records in the collider that `rc` names that the object holding it
    /// owns it.
    pub fn adopt_collider(&mut self, rc: ComponentRef)
        requires
            old(self).has_component(rc),
            old(self).component(rc).spec_kind() == ComponentKind::Collider,
        ensures
            final(self)@ == with_component(
                old(self)@,
                rc,
                adopted(old(self).component(rc), rc.owner),
            ),
            same_shape(old(self)@, final(self)@),
    {
        let ghost before = self@;
        proof {
            assert(self@[rc.owner.index as int] == self.objects@[rc.owner.index as int]@);
        }
        match &mut self.objects[rc.owner.index].components[rc.index] {
            Component::Collider(c) => {
                c.owner = Some(rc.owner);
            },
            _ => {},
        }
        proof {
            let c = adopted(before[rc.owner.index as int].components[rc.index as int], rc.owner);
            assert(self@ =~= with_component(before, rc, c));
            lemma_with_component_shape(before, rc, c);
        }
    }
}

impl GameObject {
    /// Moves `obj` by `offset` and pushes it out of whatever it then
    /// overlaps. The object first makes the whole move and is taken off the
    /// ground. Then its first collider is tested against every other collider
    /// at and below `root`, in breadth-first order: both hitboxes are put
    /// around the positions of their owners, and where they overlap `obj` is
    /// moved by the minimum translation vector at once, and stands on ground
    /// if that vector points upward. Overlaps are resolved one by one, in
    /// order, with no second pass.
    pub fn move_and_collide(scene: &mut Scene, root: ObjectId, obj: ObjectId, offset: Vector3)
        requires
            old(scene).wf(),
            old(scene).has(root),
            old(scene).has(obj),
        ensures
            final(scene).wf(),
            final(scene)@ == move_result(old(scene)@, root, obj, offset),
            same_shape(old(scene)@, final(scene)@),
    {
        let ghost before = scene@;
        scene.objects[obj.index].grounded = false;
        let target = scene.objects[obj.index].pos.plus(offset);
        scene.objects[obj.index].pos = target;
        let ghost start = scene@;
        proof {
            assert(start =~= moved(before, obj, offset));
            assert(same_shape(before, start));
            lemma_same_shape_links(before, start);
            assert(scene@[obj.index as int] == scene.objects@[obj.index as int]@);
        }
        let mine = match scene.objects[obj.index].get_component(ComponentKind::Collider) {
            Some(h) => h,
            None => {
                proof {
                    lemma_first_handle(
                        start[obj.index as int],
                        ComponentKind::Collider,
                        start[obj.index as int].components.len(),
                    );
                }
                return ;
            },
        };
        proof {
            lemma_first_handle(
                start[obj.index as int],
                ComponentKind::Collider,
                start[obj.index as int].components.len(),
            );
            assert(handle_of(mine.rc.owner, mine.rc.index as int, ComponentKind::Collider) == mine);
            assert(first_handle_of_kind(start[obj.index as int], ComponentKind::Collider) == Some(
                mine,
            ));
        }
        let others = GameObject::get_components_in_children(scene, root, ComponentKind::Collider);
        let mut k: usize = 0;
        while k < others.len()
            invariant
                k <= others@.len(),
                scene.wf(),
                scene.has(obj),
                is_forest(links_of(start)),
                forall|i: int| 0 <= i < start.len() ==> (#[trigger] start[i]).id.index == i,
                same_shape(start, scene@),
                scene.holds(mine),
                mine.rc.owner == obj,
                mine.kind == ComponentKind::Collider,
                forall|i: int|
                    0 <= i < others@.len() ==> {
                        &&& start.len() > (#[trigger] others@[i]).rc.owner.index
                        &&& others@[i].rc.index < start[others@[i].rc.owner.index as int].components.len()
                        &&& start[others@[i].rc.owner.index as int].components[others@[i].rc.index as int].spec_kind()
                            == ComponentKind::Collider
                    },
                scene@ == resolve_all(start, obj, mine.rc, others@, k as nat),
            decreases others@.len() - k,
        {
            let other = others[k];
            let ghost now = scene@;
            proof {
                assert(start.len() > others@[k as int].rc.owner.index);
                assert(now[other.rc.owner.index as int].components[other.rc.index as int].spec_kind()
                    == start[other.rc.owner.index as int].components[other.rc.index as int].spec_kind());
            }
            if !same_component(mine.rc, other.rc) {
                scene.refresh_collider(mine.rc);
                proof {
                    lemma_same_shape_trans(start, now, scene@);
                    assert(scene@[other.rc.owner.index as int].components[other.rc.index as int].spec_kind()
                        == now[other.rc.owner.index as int].components[other.rc.index as int].spec_kind());
                }
                let ghost mid = scene@;
                scene.refresh_collider(other.rc);
                let ghost ready = scene@;
                proof {
                    lemma_same_shape_trans(start, mid, ready);
                    assert(ready[mine.rc.owner.index as int].components[mine.rc.index as int].spec_kind()
                        == start[mine.rc.owner.index as int].components[mine.rc.index as int].spec_kind());
                }
                let push = scene.hitbox(mine.rc).collide(scene.hitbox(other.rc));
                proof {
                    assert(push == push_against(now, mine.rc, other.rc));
                    assert(scene@[obj.index as int] == scene.objects@[obj.index as int]@);
                }
                match push {
                    Some(p) => {
                        let shift = Vector3::new(p.x, p.y, 0);
                        let next = scene.objects[obj.index].pos.plus(shift);
                        scene.objects[obj.index].pos = next;
                        if p.y > 0 {
                            scene.objects[obj.index].grounded = true;
                        }
                        proof {
                            assert(scene@ =~= pushed(ready, obj, p));
                            assert(same_shape(ready, scene@));
                            lemma_same_shape_trans(start, ready, scene@);
                        }
                    },
                    None => {},
                }
                proof {
                    assert(scene@ == resolve_one(now, obj, mine.rc, other.rc));
                }
            }
            proof {
                lemma_same_shape_links(start, scene@);
                assert(scene.links() == links_of(start));
                assert forall|i: int| 0 <= i < scene@.len() implies (#[trigger] scene@[i]).id.index
                    == i by {
                    assert(start[i].id == scene@[i].id);
                }
            }
            k += 1;
        }
        proof {
            lemma_same_shape_trans(before, start, scene@);
        }
    }
}

/// One step of collision resolution leaves the mover on ground exactly if it
/// was on ground before or the push of this step points upward. A push that
/// is level or points downward, and a step without overlap, leave the mover
/// as it was.
pub proof fn lemma_grounded_step(
    objects: Seq<ObjectView>,
    obj: ObjectId,
    mine: ComponentRef,
    other: ComponentRef,
)
    requires
        obj.index < objects.len(),
        mine.owner.index < objects.len(),
        other.owner.index < objects.len(),
    ensures
        resolve_one(objects, obj, mine, other).len() == objects.len(),
        resolve_one(objects, obj, mine, other)[obj.index as int].grounded == (
        objects[obj.index as int].grounded || (push_against(objects, mine, other) matches Some(
            push,
        ) && push.y > 0)),
{
}

/// Grounded classification: after a move, the mover stands on ground exactly
/// if one of the pushes that resolved its overlaps had a positive vertical
/// part. Pushes with a zero or negative vertical part never ground it.
pub proof fn lemma_grounded_classification(
    objects: Seq<ObjectView>,
    obj: ObjectId,
    mine: ComponentRef,
    others: Seq<CompRc>,
    k: nat,
)
    requires
        k <= others.len(),
        obj.index < objects.len(),
        mine.owner.index < objects.len(),
        forall|j: int| 0 <= j < others.len() ==> (#[trigger] others[j]).rc.owner.index < objects.len(),
        !objects[obj.index as int].grounded,
    ensures
        resolve_all(objects, obj, mine, others, k).len() == objects.len(),
        resolve_all(objects, obj, mine, others, k)[obj.index as int].grounded <==> exists|j: int|
            0 <= j < k && (#[trigger] push_against(
                resolve_all(objects, obj, mine, others, j as nat),
                mine,
                others[j].rc,
            ) matches Some(push) && push.y > 0),
    decreases k,
{
    if k > 0 {
        let before = resolve_all(objects, obj, mine, others, (k - 1) as nat);
        lemma_grounded_classification(objects, obj, mine, others, (k - 1) as nat);
        assert(others[k - 1].rc.owner.index < objects.len());
        lemma_grounded_step(before, obj, mine, others[k - 1].rc);
        let up = |j: int|
            push_against(resolve_all(objects, obj, mine, others, j as nat), mine, others[j].rc) matches Some(
                push,
            ) && push.y > 0;
        if resolve_all(objects, obj, mine, others, k)[obj.index as int].grounded {
            if before[obj.index as int].grounded {
                let j = choose|j: int|
                    0 <= j < k - 1 && (#[trigger] push_against(
                        resolve_all(objects, obj, mine, others, j as nat),
                        mine,
                        others[j].rc,
                    ) matches Some(push) && push.y > 0);
                assert(0 <= j < k && up(j));
            } else {
                assert(up(k - 1));
            }
        }
    }
}

} // verus!
