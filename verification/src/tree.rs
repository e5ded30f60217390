//! The shape of a scene graph, as mathematics: parent and child links between
//! numbered objects, what it means for them to form a forest of trees, and how
//! reparenting and breadth-first traversal act on that shape.

use vstd::prelude::*;

verus! {

/// The handle of an object: its slot in the scene that owns it. Slots are
/// never reused, so a handle names the same object for as long as the scene
/// lives.
#[derive(Clone, Copy, Debug, PartialEq, Eq, Structural)]
pub struct ObjectId {
    pub index: usize,
}

/// The links of one object: its parent, if it has one, and its children in
/// the order in which they were attached.
pub struct Node {
    pub parent: Option<ObjectId>,
    pub children: Seq<ObjectId>,
}

/// The links of every object of a scene, by slot.
pub type Forest = Seq<Node>;

/// `x` names an object of the forest.
pub open spec fn in_forest(f: Forest, x: ObjectId) -> bool {
    x.index < f.len()
}

/// The parent of `x`, or `None` for a root and for a handle outside the forest.
pub open spec fn parent_of(f: Forest, x: ObjectId) -> Option<ObjectId> {
    if in_forest(f, x) {
        f[x.index as int].parent
    } else {
        None
    }
}

/// The children of `x` in attachment order; none for a handle outside the
/// forest.
pub open spec fn children_of(f: Forest, x: ObjectId) -> Seq<ObjectId> {
    if in_forest(f, x) {
        f[x.index as int].children
    } else {
        Seq::empty()
    }
}

/// Parent and child links agree: every listed child is an object that names
/// the lister as its parent, no object is listed twice by one parent, and
/// every object with a parent is listed by that parent. So no object is ever
/// listed under two parents.
pub open spec fn links_agree(f: Forest) -> bool {
    &&& forall|p: ObjectId, k: int|
        in_forest(f, p) && 0 <= k < children_of(f, p).len() ==> {
            &&& in_forest(f, #[trigger] children_of(f, p)[k])
            &&& parent_of(f, children_of(f, p)[k]) == Some(p)
        }
    &&& forall|p: ObjectId| in_forest(f, p) ==> (#[trigger] children_of(f, p)).no_duplicates()
    &&& forall|c: ObjectId|
        in_forest(f, c) && (#[trigger] parent_of(f, c)) is Some ==> {
            &&& in_forest(f, parent_of(f, c)->0)
            &&& children_of(f, parent_of(f, c)->0).contains(c)
        }
}

/// The object `k` parent links above `x`: `x` itself for `k == 0`, and `None`
/// once the chain has run past a root.
pub open spec fn ancestor(f: Forest, x: ObjectId, k: nat) -> Option<ObjectId>
    decreases k,
{
    if k == 0 {
        Some(x)
    } else {
        match ancestor(f, x, (k - 1) as nat) {
            Some(a) => parent_of(f, a),
            None => None,
        }
    }
}

/// The chain of parents above `x` ends at a root.
pub open spec fn rooted(f: Forest, x: ObjectId) -> bool {
    exists|k: nat| ancestor(f, x, k) is None
}

/// No chain of parent links runs in a circle.
pub open spec fn acyclic(f: Forest) -> bool {
    forall|x: ObjectId| in_forest(f, x) ==> #[trigger] rooted(f, x)
}

/// The links form a forest of trees.
pub open spec fn is_forest(f: Forest) -> bool {
    links_agree(f) && acyclic(f)
}

/// `x` lies strictly below `a`: some chain of one or more parent links leads
/// from `x` up to `a`.
pub open spec fn is_descendant(f: Forest, x: ObjectId, a: ObjectId) -> bool {
    exists|k: nat| k >= 1 && ancestor(f, x, k) == Some(a)
}

/// All objects strictly below `a`.
pub open spec fn descendants(f: Forest, a: ObjectId) -> Set<ObjectId> {
    Set::new(|x: ObjectId| is_descendant(f, x, a))
}

/// Climbing `a` links and then `b` more is climbing `a + b` links.
pub proof fn lemma_ancestor_add(f: Forest, x: ObjectId, a: nat, b: nat)
    ensures
        ancestor(f, x, a + b) == match ancestor(f, x, a) {
            Some(y) => ancestor(f, y, b),
            None => None,
        },
    decreases b,
{
    if b > 0 {
        lemma_ancestor_add(f, x, a, (b - 1) as nat);
        assert(a + b - 1 == a + (b - 1) as nat);
    }
}

/// A chain that has run past a root stays past it.
pub proof fn lemma_ancestor_none_stays(f: Forest, x: ObjectId, k: nat, later: nat)
    requires
        ancestor(f, x, k) is None,
        k <= later,
    ensures
        ancestor(f, x, later) is None,
{
    lemma_ancestor_add(f, x, k, (later - k) as nat);
}

/// Every object on a chain of parents lies in the forest, provided the chain
/// starts there and the links agree.
pub proof fn lemma_ancestor_in_forest(f: Forest, x: ObjectId, k: nat)
    requires
        links_agree(f),
        in_forest(f, x),
        ancestor(f, x, k) is Some,
    ensures
        in_forest(f, ancestor(f, x, k)->0),
    decreases k,
{
    if k > 0 {
        let below = ancestor(f, x, (k - 1) as nat);
        lemma_ancestor_in_forest(f, x, (k - 1) as nat);
        assert(parent_of(f, below->0) is Some);
    }
}

/// In a chain that ends at a root, no object is its own ancestor.
pub proof fn lemma_no_self_descendant(f: Forest, x: ObjectId)
    requires
        rooted(f, x),
    ensures
        !is_descendant(f, x, x),
{
    if is_descendant(f, x, x) {
        let k = choose|k: nat| k >= 1 && ancestor(f, x, k) == Some(x);
        let end = choose|e: nat| ancestor(f, x, e) is None;
        lemma_cycle_repeats(f, x, k, end);
        assert(end * k >= end) by (nonlinear_arith)
            requires
                k >= 1,
                end >= 0,
        ;
        lemma_ancestor_none_stays(f, x, end, end * k);
    }
}

/// An object that is its own `k`-th ancestor is its own `m * k`-th ancestor.
proof fn lemma_cycle_repeats(f: Forest, x: ObjectId, k: nat, m: nat)
    requires
        ancestor(f, x, k) == Some(x),
    ensures
        ancestor(f, x, m * k) == Some(x),
    decreases m,
{
    if m == 0 {
        assert(m * k == 0) by (nonlinear_arith)
            requires
                m == 0,
        ;
    } else {
        lemma_cycle_repeats(f, x, k, (m - 1) as nat);
        lemma_ancestor_add(f, x, ((m - 1) * k) as nat, k);
        assert((m - 1) * k + k == m * k) by (nonlinear_arith);
    }
}

/// A child of `a`, or of a descendant of `a`, is a descendant of `a`.
pub proof fn lemma_child_is_descendant(f: Forest, c: ObjectId, p: ObjectId, a: ObjectId)
    requires
        parent_of(f, c) == Some(p),
        p == a || is_descendant(f, p, a),
    ensures
        is_descendant(f, c, a),
{
    assert(ancestor(f, c, 1) == parent_of(f, c)) by {
        assert(ancestor(f, c, 0) == Some(c));
    }
    if p == a {
        assert(ancestor(f, c, 1) == Some(a));
    } else {
        let k = choose|k: nat| k >= 1 && ancestor(f, p, k) == Some(a);
        lemma_ancestor_add(f, c, 1, k);
        assert(ancestor(f, c, 1 + k) == Some(a));
    }
}

/// An object whose parent's chain ends at a root has a chain that ends at a
/// root.
pub proof fn lemma_rooted_from_parent(f: Forest, x: ObjectId)
    requires
        parent_of(f, x) is None || rooted(f, parent_of(f, x)->0),
    ensures
        rooted(f, x),
{
    assert(ancestor(f, x, 0) == Some(x));
    match parent_of(f, x) {
        None => {
            assert(ancestor(f, x, 1) is None);
        },
        Some(p) => {
            let k = choose|k: nat| ancestor(f, p, k) is None;
            lemma_ancestor_add(f, x, 1, k);
            assert(ancestor(f, x, 1) == Some(p));
            assert(ancestor(f, x, 1 + k) is None);
        },
    }
}

/// The forest after `x` has been cut loose from its parent: the parent no
/// longer lists `x`, `x` has no parent, and every other link is as before. A
/// forest in which `x` has no parent is left as it is.
pub open spec fn detached(f: Forest, x: ObjectId) -> Forest {
    match parent_of(f, x) {
        None => f,
        Some(p) => f.update(
            p.index as int,
            Node {
                parent: f[p.index as int].parent,
                children: f[p.index as int].children.remove(
                    f[p.index as int].children.index_of(x),
                ),
            },
        ).update(x.index as int, Node { parent: None, children: f[x.index as int].children }),
    }
}

/// The forest after the parentless object `x` has been put under `q`: `q`
/// lists `x` as its last child, `x` names `q` as its parent, and every other
/// link is as before.
pub open spec fn attached(f: Forest, x: ObjectId, q: ObjectId) -> Forest {
    f.update(
        q.index as int,
        Node { parent: f[q.index as int].parent, children: f[q.index as int].children.push(x) },
    ).update(x.index as int, Node { parent: Some(q), children: f[x.index as int].children })
}

/// The forest after `x` has been moved under `new_parent`, or made a root
/// for `None`: first cut loose from its old parent, then attached to the new
/// one.
pub open spec fn reparented(f: Forest, x: ObjectId, new_parent: Option<ObjectId>) -> Forest {
    match new_parent {
        None => detached(f, x),
        Some(q) => attached(detached(f, x), x, q),
    }
}

/// Whether `x` may be moved under `new_parent` without closing a circle: the
/// new parent is an object other than `x` that does not lie below `x`.
pub open spec fn may_reparent(f: Forest, x: ObjectId, new_parent: Option<ObjectId>) -> bool {
    match new_parent {
        None => true,
        Some(q) => in_forest(f, q) && q != x && !is_descendant(f, q, x),
    }
}

/// Removing one entry from a list without repeats leaves a list without
/// repeats that holds every other entry and not the removed one.
pub proof fn lemma_remove_entry(s: Seq<ObjectId>, i: int)
    requires
        s.no_duplicates(),
        0 <= i < s.len(),
    ensures
        s.remove(i).no_duplicates(),
        !s.remove(i).contains(s[i]),
        forall|c: ObjectId| c != s[i] && s.contains(c) ==> s.remove(i).contains(c),
        forall|c: ObjectId| s.remove(i).contains(c) ==> s.contains(c),
{
    let r = s.remove(i);
    assert forall|a: int, b: int| 0 <= a < r.len() && 0 <= b < r.len() && a != b implies r[a]
        != r[b] by {
        let a0 = if a < i { a } else { a + 1 };
        let b0 = if b < i { b } else { b + 1 };
        assert(r[a] == s[a0] && r[b] == s[b0]);
    }
    if r.contains(s[i]) {
        let a = choose|a: int| 0 <= a < r.len() && r[a] == s[i];
        let a0 = if a < i { a } else { a + 1 };
        assert(r[a] == s[a0]);
    }
    assert forall|c: ObjectId| c != s[i] && s.contains(c) implies r.contains(c) by {
        let a = choose|a: int| 0 <= a < s.len() && s[a] == c;
        let a1 = if a < i { a } else { a - 1 };
        assert(r[a1] == c);
    }
    assert forall|c: ObjectId| r.contains(c) implies s.contains(c) by {
        let a = choose|a: int| 0 <= a < r.len() && r[a] == c;
        let a0 = if a < i { a } else { a + 1 };
        assert(s[a0] == c);
    }
}

/// In a forest no object is its own parent.
pub proof fn lemma_parent_differs(f: Forest, x: ObjectId)
    requires
        is_forest(f),
        in_forest(f, x),
    ensures
        parent_of(f, x) != Some(x),
{
    if parent_of(f, x) == Some(x) {
        assert(ancestor(f, x, 0) == Some(x));
        assert(ancestor(f, x, 1) == Some(x));
        lemma_no_self_descendant(f, x);
    }
}

/// Cutting `x` loose only shortens chains of parents.
proof fn lemma_detached_chain(f: Forest, x: ObjectId, y: ObjectId, k: nat)
    requires
        is_forest(f),
        in_forest(f, x),
    ensures
        ancestor(detached(f, x), y, k) is None || ancestor(detached(f, x), y, k) == ancestor(
            f,
            y,
            k,
        ),
    decreases k,
{
    if k > 0 {
        lemma_detached_chain(f, x, y, (k - 1) as nat);
        lemma_parent_differs(f, x);
        let g = detached(f, x);
        match ancestor(g, y, (k - 1) as nat) {
            Some(a) => {
                assert(parent_of(g, a) is None || parent_of(g, a) == parent_of(f, a));
            },
            None => {},
        }
    }
}

/// Cutting an object loose from its parent keeps a forest a forest, changes
/// no other link and moves nothing into or out of the part below the object.
pub proof fn lemma_detached(f: Forest, x: ObjectId)
    requires
        is_forest(f),
        in_forest(f, x),
    ensures
        is_forest(detached(f, x)),
        detached(f, x).len() == f.len(),
        parent_of(detached(f, x), x) is None,
        children_of(detached(f, x), x) == children_of(f, x),
        parent_of(f, x) matches Some(p) ==> {
            &&& !children_of(detached(f, x), p).contains(x)
            &&& children_of(detached(f, x), p) == children_of(f, p).remove(
                children_of(f, p).index_of(x),
            )
            &&& parent_of(detached(f, x), p) == parent_of(f, p)
        },
        forall|y: ObjectId| y != x ==> parent_of(detached(f, x), y) == parent_of(f, y),
        forall|y: ObjectId|
            Some(y) != parent_of(f, x) ==> children_of(detached(f, x), y) == children_of(f, y),
{
    let g = detached(f, x);
    lemma_parent_differs(f, x);
    match parent_of(f, x) {
        None => {},
        Some(p) => {
            let kids = children_of(f, p);
            assert(kids.contains(x));
            let i = kids.index_of(x);
            lemma_remove_entry(kids, i);
            assert(children_of(g, p) == kids.remove(i));
            assert forall|y: ObjectId| y != x implies parent_of(g, y) == parent_of(f, y) by {}
            assert forall|y: ObjectId| y != p implies children_of(g, y) == children_of(f, y) by {}
            assert forall|q: ObjectId, k: int|
                in_forest(g, q) && 0 <= k < children_of(g, q).len() implies {
                &&& in_forest(g, #[trigger] children_of(g, q)[k])
                &&& parent_of(g, children_of(g, q)[k]) == Some(q)
            } by {
                let c = children_of(g, q)[k];
                if q == p {
                    assert(kids.remove(i).contains(c));
                    assert(kids.contains(c));
                    let j = choose|j: int| 0 <= j < kids.len() && kids[j] == c;
                    assert(in_forest(f, children_of(f, p)[j]));
                    assert(parent_of(f, children_of(f, p)[j]) == Some(p));
                    assert(c != x);
                } else {
                    assert(c == children_of(f, q)[k]);
                    assert(parent_of(f, children_of(f, q)[k]) == Some(q));
                    assert(c != x);
                }
            }
            assert forall|q: ObjectId| in_forest(g, q) implies (#[trigger] children_of(
                g,
                q,
            )).no_duplicates() by {
                if q != p {
                    assert(children_of(f, q).no_duplicates());
                }
            }
            assert forall|c: ObjectId|
                in_forest(g, c) && (#[trigger] parent_of(g, c)) is Some implies {
                &&& in_forest(g, parent_of(g, c)->0)
                &&& children_of(g, parent_of(g, c)->0).contains(c)
            } by {
                assert(c != x);
                assert(parent_of(f, c) is Some);
                let q = parent_of(f, c)->0;
                assert(children_of(f, q).contains(c));
            }
        },
    }
    assert forall|y: ObjectId| in_forest(g, y) implies #[trigger] rooted(g, y) by {
        assert(rooted(f, y));
        let k = choose|k: nat| ancestor(f, y, k) is None;
        lemma_detached_chain(f, x, y, k);
    }
}

/// Cutting `x` loose keeps everything that lay below `x` below it.
proof fn lemma_detached_keeps_below(f: Forest, x: ObjectId, y: ObjectId, k: nat)
    requires
        is_forest(f),
        in_forest(f, x),
        k >= 1,
        ancestor(f, y, k) == Some(x),
    ensures
        is_descendant(detached(f, x), y, x),
    decreases k,
{
    let g = detached(f, x);
    lemma_detached(f, x);
    assert(ancestor(f, y, 0) == Some(y));
    lemma_ancestor_add(f, y, 1, (k - 1) as nat);
    assert(ancestor(f, y, 1) == parent_of(f, y));
    if y == x {
        lemma_no_self_descendant(f, x);
        assert(in_forest(f, x));
        assert(rooted(f, x));
        assert(false);
    }
    let z = parent_of(f, y)->0;
    assert(parent_of(g, y) == Some(z));
    if k > 1 {
        lemma_detached_keeps_below(f, x, z, (k - 1) as nat);
    }
    lemma_child_is_descendant(g, y, z, x);
}

/// Cutting `x` loose brings nothing new below `x`.
proof fn lemma_detached_adds_none_below(f: Forest, x: ObjectId, y: ObjectId, k: nat)
    requires
        is_forest(f),
        in_forest(f, x),
        k >= 1,
        ancestor(detached(f, x), y, k) == Some(x),
    ensures
        is_descendant(f, y, x),
    decreases k,
{
    let g = detached(f, x);
    lemma_detached(f, x);
    assert(ancestor(g, y, 0) == Some(y));
    lemma_ancestor_add(g, y, 1, (k - 1) as nat);
    assert(ancestor(g, y, 1) == parent_of(g, y));
    if y == x {
        assert(ancestor(g, y, 1) is None);
        lemma_ancestor_none_stays(g, y, 1, k);
        assert(false);
    }
    let z = parent_of(g, y)->0;
    assert(parent_of(f, y) == Some(z));
    if k > 1 {
        lemma_detached_adds_none_below(f, x, z, (k - 1) as nat);
    }
    lemma_child_is_descendant(f, y, z, x);
}

/// Cutting `x` loose from its parent leaves the part of the forest below
/// `x` as it was.
pub proof fn lemma_detached_below(f: Forest, x: ObjectId, y: ObjectId)
    requires
        is_forest(f),
        in_forest(f, x),
    ensures
        is_descendant(detached(f, x), y, x) <==> is_descendant(f, y, x),
{
    if is_descendant(f, y, x) {
        let k = choose|k: nat| k >= 1 && ancestor(f, y, k) == Some(x);
        lemma_detached_keeps_below(f, x, y, k);
    }
    if is_descendant(detached(f, x), y, x) {
        let k = choose|k: nat| k >= 1 && ancestor(detached(f, x), y, k) == Some(x);
        lemma_detached_adds_none_below(f, x, y, k);
    }
}

/// Attaching `x` changes no chain that starts outside the part at and below
/// `x`.
proof fn lemma_attached_chain_outside(f: Forest, x: ObjectId, q: ObjectId, y: ObjectId, k: nat)
    requires
        in_forest(f, x),
        in_forest(f, q),
        q != x,
        y != x,
        !is_descendant(f, y, x),
    ensures
        ancestor(attached(f, x, q), y, k) == ancestor(f, y, k),
    decreases k,
{
    if k > 0 {
        lemma_attached_chain_outside(f, x, q, y, (k - 1) as nat);
        match ancestor(f, y, (k - 1) as nat) {
            Some(a) => {
                if a == x {
                    assert(k - 1 >= 1);
                    assert(is_descendant(f, y, x));
                }
                assert(parent_of(attached(f, x, q), a) == parent_of(f, a));
            },
            None => {},
        }
    }
}

/// After `x` has been attached, every chain that starts below `x` still ends
/// at a root.
proof fn lemma_attached_rooted_below(f: Forest, x: ObjectId, q: ObjectId, y: ObjectId, k: nat)
    requires
        in_forest(f, x),
        in_forest(f, q),
        q != x,
        parent_of(f, x) is None,
        rooted(attached(f, x, q), x),
        k >= 1,
        ancestor(f, y, k) == Some(x),
    ensures
        rooted(attached(f, x, q), y),
    decreases k,
{
    let g = attached(f, x, q);
    assert(ancestor(f, y, 0) == Some(y));
    lemma_ancestor_add(f, y, 1, (k - 1) as nat);
    assert(ancestor(f, y, 1) == parent_of(f, y));
    if y == x {
        assert(ancestor(f, y, 1) is None);
        lemma_ancestor_none_stays(f, y, 1, k);
        assert(false);
    }
    let z = parent_of(f, y)->0;
    assert(parent_of(g, y) == Some(z));
    if k > 1 {
        lemma_attached_rooted_below(f, x, q, z, (k - 1) as nat);
    }
    lemma_rooted_from_parent(g, y);
}

/// Putting a parentless object under an object that does not lie below it
/// keeps a forest a forest and changes no other link.
pub proof fn lemma_attached(f: Forest, x: ObjectId, q: ObjectId)
    requires
        is_forest(f),
        in_forest(f, x),
        in_forest(f, q),
        parent_of(f, x) is None,
        q != x,
        !is_descendant(f, q, x),
    ensures
        is_forest(attached(f, x, q)),
        attached(f, x, q).len() == f.len(),
        parent_of(attached(f, x, q), x) == Some(q),
        children_of(attached(f, x, q), q) == children_of(f, q).push(x),
        children_of(attached(f, x, q), q).contains(x),
        forall|y: ObjectId| y != x ==> parent_of(attached(f, x, q), y) == parent_of(f, y),
        forall|y: ObjectId| y != q ==> children_of(attached(f, x, q), y) == children_of(f, y),
{
    let g = attached(f, x, q);
    let kids = children_of(f, q);
    assert(children_of(g, q) == kids.push(x));
    assert(kids.push(x)[kids.len() as int] == x);
    assert forall|y: ObjectId| y != x implies parent_of(g, y) == parent_of(f, y) by {}
    assert forall|y: ObjectId| y != q implies children_of(g, y) == children_of(f, y) by {}
    assert forall|p: ObjectId, k: int|
        in_forest(g, p) && 0 <= k < children_of(g, p).len() implies {
        &&& in_forest(g, #[trigger] children_of(g, p)[k])
        &&& parent_of(g, children_of(g, p)[k]) == Some(p)
    } by {
        let c = children_of(g, p)[k];
        if p == q && k == kids.len() {
            assert(c == x);
        } else {
            assert(c == children_of(f, p)[k]);
            assert(parent_of(f, children_of(f, p)[k]) == Some(p));
            assert(c != x);
        }
    }
    assert forall|p: ObjectId| in_forest(g, p) implies (#[trigger] children_of(
        g,
        p,
    )).no_duplicates() by {
        assert(children_of(f, p).no_duplicates());
        if p == q {
            if kids.contains(x) {
                let j = choose|j: int| 0 <= j < kids.len() && kids[j] == x;
                assert(parent_of(f, children_of(f, q)[j]) == Some(q));
            }
            assert forall|a: int, b: int|
                0 <= a < kids.push(x).len() && 0 <= b < kids.push(x).len() && a != b implies kids.push(
                x,
            )[a] != kids.push(x)[b] by {
                if a < kids.len() {
                    assert(kids.contains(kids[a]));
                }
                if b < kids.len() {
                    assert(kids.contains(kids[b]));
                }
            }
        }
    }
    assert forall|c: ObjectId| in_forest(g, c) && (#[trigger] parent_of(g, c)) is Some implies {
        &&& in_forest(g, parent_of(g, c)->0)
        &&& children_of(g, parent_of(g, c)->0).contains(c)
    } by {
        if c != x {
            assert(parent_of(f, c) is Some);
            let p = parent_of(f, c)->0;
            assert(children_of(f, p).contains(c));
            if p == q {
                let j = choose|j: int| 0 <= j < kids.len() && kids[j] == c;
                assert(kids.push(x)[j] == c);
            }
        }
    }
    assert(rooted(g, q)) by {
        assert(rooted(f, q));
        let k = choose|k: nat| ancestor(f, q, k) is None;
        lemma_attached_chain_outside(f, x, q, q, k);
    }
    lemma_rooted_from_parent(g, x);
    assert forall|y: ObjectId| in_forest(g, y) implies #[trigger] rooted(g, y) by {
        if y == x {
        } else if is_descendant(f, y, x) {
            let k = choose|k: nat| k >= 1 && ancestor(f, y, k) == Some(x);
            lemma_attached_rooted_below(f, x, q, y, k);
        } else {
            assert(rooted(f, y));
            let k = choose|k: nat| ancestor(f, y, k) is None;
            lemma_attached_chain_outside(f, x, q, y, k);
        }
    }
}

/// The list that a breadth-first walk below `root` has built once it has
/// expanded the first `k` entries of `order`: the children of `root`, then the
/// children of each expanded entry, in turn.
pub open spec fn expansion(f: Forest, root: ObjectId, order: Seq<ObjectId>, k: nat) -> Seq<
    ObjectId,
>
    decreases k,
{
    if k == 0 {
        children_of(f, root)
    } else {
        expansion(f, root, order, (k - 1) as nat) + children_of(f, order[k - 1])
    }
}

/// `order` lists objects breadth first below `root`: it starts with the
/// children of `root`, and the children of each entry follow, in entry order,
/// behind the children of all earlier entries. Each entry was already listed
/// when its turn to be expanded came.
pub open spec fn is_breadth_first(f: Forest, root: ObjectId, order: Seq<ObjectId>) -> bool {
    &&& order == expansion(f, root, order, order.len())
    &&& forall|k: nat| k < order.len() ==> (#[trigger] expansion(f, root, order, k)).len() > k
}

/// What the walk has built only grows: an earlier state is a prefix of every
/// later one.
pub proof fn lemma_expansion_grows(
    f: Forest,
    root: ObjectId,
    order: Seq<ObjectId>,
    j: nat,
    k: nat,
)
    requires
        j <= k,
    ensures
        expansion(f, root, order, j).len() <= expansion(f, root, order, k).len(),
        expansion(f, root, order, k).subrange(0, expansion(f, root, order, j).len() as int)
            == expansion(f, root, order, j),
    decreases k,
{
    if j < k {
        lemma_expansion_grows(f, root, order, j, (k - 1) as nat);
        let before = expansion(f, root, order, (k - 1) as nat);
        let first = expansion(f, root, order, j);
        assert(expansion(f, root, order, k).subrange(0, first.len() as int) =~= before.subrange(
            0,
            first.len() as int,
        ));
    } else {
        assert(expansion(f, root, order, k).subrange(0, expansion(f, root, order, j).len() as int)
            =~= expansion(f, root, order, j));
    }
}

/// Two breadth-first lists below one root agree on what the walk has built
/// after any number of expansions that both reach.
proof fn lemma_breadth_first_agree(
    f: Forest,
    root: ObjectId,
    a: Seq<ObjectId>,
    b: Seq<ObjectId>,
    k: nat,
)
    requires
        is_breadth_first(f, root, a),
        is_breadth_first(f, root, b),
        k <= a.len(),
        k <= b.len(),
    ensures
        expansion(f, root, a, k) == expansion(f, root, b, k),
        forall|i: int| 0 <= i < k ==> a[i] == b[i],
    decreases k,
{
    if k > 0 {
        let j = (k - 1) as nat;
        lemma_breadth_first_agree(f, root, a, b, j);
        lemma_expansion_grows(f, root, a, j, a.len());
        lemma_expansion_grows(f, root, b, j, b.len());
        let ea = expansion(f, root, a, j);
        let eb = expansion(f, root, b, j);
        assert(ea.len() > j);
        assert(eb.len() > j);
        assert(a.subrange(0, ea.len() as int)[j as int] == a[j as int]);
        assert(b.subrange(0, eb.len() as int)[j as int] == b[j as int]);
        assert(a[j as int] == b[j as int]);
    }
}

/// There is only one breadth-first list below a root.
pub proof fn lemma_breadth_first_unique(
    f: Forest,
    root: ObjectId,
    a: Seq<ObjectId>,
    b: Seq<ObjectId>,
)
    requires
        is_breadth_first(f, root, a),
        is_breadth_first(f, root, b),
    ensures
        a == b,
{
    if a.len() <= b.len() {
        lemma_breadth_first_agree(f, root, a, b, a.len());
        if a.len() < b.len() {
            assert(expansion(f, root, b, a.len()).len() > a.len());
        }
    } else {
        lemma_breadth_first_agree(f, root, a, b, b.len());
        assert(expansion(f, root, a, b.len()).len() > b.len());
    }
    assert(a =~= b);
}

/// The breadth-first list below `root`.
pub open spec fn breadth_first_order(f: Forest, root: ObjectId) -> Seq<ObjectId> {
    choose|order: Seq<ObjectId>| is_breadth_first(f, root, order)
}

/// What the walk has built after `k` expansions depends on the first `k`
/// entries only.
pub proof fn lemma_expansion_prefix(
    f: Forest,
    root: ObjectId,
    a: Seq<ObjectId>,
    b: Seq<ObjectId>,
    k: nat,
)
    requires
        k <= a.len(),
        k <= b.len(),
        forall|i: int| 0 <= i < k ==> a[i] == b[i],
    ensures
        expansion(f, root, a, k) == expansion(f, root, b, k),
    decreases k,
{
    if k > 0 {
        lemma_expansion_prefix(f, root, a, b, (k - 1) as nat);
    }
}

/// Every entry that the walk has built is a child of `root` or of an entry
/// that was expanded.
pub proof fn lemma_expansion_source(
    f: Forest,
    root: ObjectId,
    order: Seq<ObjectId>,
    k: nat,
    c: ObjectId,
)
    requires
        expansion(f, root, order, k).contains(c),
    ensures
        children_of(f, root).contains(c) || exists|i: int|
            0 <= i < k && #[trigger] children_of(f, order[i]).contains(c),
    decreases k,
{
    if k > 0 {
        let before = expansion(f, root, order, (k - 1) as nat);
        let kids = children_of(f, order[k - 1]);
        let j = choose|j: int| 0 <= j < (before + kids).len() && (before + kids)[j] == c;
        if j < before.len() {
            assert(before[j] == c);
            lemma_expansion_source(f, root, order, (k - 1) as nat, c);
        } else {
            assert(kids[j - before.len()] == c);
            assert(children_of(f, order[k - 1]).contains(c));
        }
    }
}

/// The walk has built every child of `root` and of each expanded entry.
pub proof fn lemma_expansion_holds_children(
    f: Forest,
    root: ObjectId,
    order: Seq<ObjectId>,
    k: nat,
    c: ObjectId,
)
    requires
        children_of(f, root).contains(c) || exists|i: int|
            0 <= i < k && #[trigger] children_of(f, order[i]).contains(c),
    ensures
        expansion(f, root, order, k).contains(c),
    decreases k,
{
    if k == 0 {
    } else {
        let before = expansion(f, root, order, (k - 1) as nat);
        let kids = children_of(f, order[k - 1]);
        if kids.contains(c) {
            let j = choose|j: int| 0 <= j < kids.len() && kids[j] == c;
            assert((before + kids)[before.len() + j] == c);
        } else {
            if !children_of(f, root).contains(c) {
                let i = choose|i: int|
                    0 <= i < k && #[trigger] children_of(f, order[i]).contains(c);
                assert(i < k - 1);
            }
            lemma_expansion_holds_children(f, root, order, (k - 1) as nat, c);
            let j = choose|j: int| 0 <= j < before.len() && before[j] == c;
            assert((before + kids)[j] == c);
        }
    }
}

/// A finished breadth-first list holds every object that lies `k` links
/// below `root`.
proof fn lemma_breadth_first_reaches(
    f: Forest,
    root: ObjectId,
    order: Seq<ObjectId>,
    x: ObjectId,
    k: nat,
)
    requires
        links_agree(f),
        in_forest(f, x),
        is_breadth_first(f, root, order),
        k >= 1,
        ancestor(f, x, k) == Some(root),
    ensures
        order.contains(x),
    decreases k,
{
    assert(ancestor(f, x, 0) == Some(x));
    assert(ancestor(f, x, 1) == parent_of(f, x));
    lemma_ancestor_add(f, x, 1, (k - 1) as nat);
    let p = parent_of(f, x)->0;
    assert(children_of(f, p).contains(x));
    if k == 1 {
        assert(p == root);
    } else {
        lemma_breadth_first_reaches(f, root, order, p, (k - 1) as nat);
        let i = choose|i: int| 0 <= i < order.len() && order[i] == p;
        assert(children_of(f, order[i]).contains(x));
    }
    lemma_expansion_holds_children(f, root, order, order.len(), x);
}

/// A finished breadth-first list below `root` holds every descendant of
/// `root`.
pub proof fn lemma_breadth_first_complete(
    f: Forest,
    root: ObjectId,
    order: Seq<ObjectId>,
    x: ObjectId,
)
    requires
        links_agree(f),
        in_forest(f, x),
        is_breadth_first(f, root, order),
        is_descendant(f, x, root),
    ensures
        order.contains(x),
{
    let k = choose|k: nat| k >= 1 && ancestor(f, x, k) == Some(root);
    lemma_breadth_first_reaches(f, root, order, x, k);
}

/// A list without repeats of objects of a forest is no longer than the
/// forest.
pub proof fn lemma_distinct_objects_bounded(s: Seq<ObjectId>, n: nat)
    requires
        s.no_duplicates(),
        forall|i: int| 0 <= i < s.len() ==> (#[trigger] s[i]).index < n,
    ensures
        s.len() <= n,
    decreases n,
{
    if s.len() > 0 {
        if n == 0 {
            assert(s[0].index < n);
        } else {
            let top = ObjectId { index: (n - 1) as usize };
            if s.contains(top) {
                let i = choose|i: int| 0 <= i < s.len() && s[i] == top;
                lemma_remove_entry(s, i);
                let r = s.remove(i);
                assert forall|j: int| 0 <= j < r.len() implies (#[trigger] r[j]).index < n - 1 by {
                    assert(r.contains(r[j]));
                    assert(s.contains(r[j]));
                    let j0 = choose|j0: int| 0 <= j0 < s.len() && s[j0] == r[j];
                    assert(s[j0].index < n);
                    assert(r[j] != top);
                }
                lemma_distinct_objects_bounded(r, (n - 1) as nat);
            } else {
                assert forall|j: int| 0 <= j < s.len() implies (#[trigger] s[j]).index < n - 1 by {
                    assert(s.contains(s[j]));
                    assert(s[j].index < n);
                }
                lemma_distinct_objects_bounded(s, (n - 1) as nat);
            }
        }
    }
}

/// A breadth-first list below `root` without repeats, made of descendants of
/// `root` only, has exactly as many entries as `root` has descendants.
pub proof fn lemma_breadth_first_count(f: Forest, root: ObjectId, order: Seq<ObjectId>)
    requires
        links_agree(f),
        is_breadth_first(f, root, order),
        order.no_duplicates(),
        forall|i: int| 0 <= i < order.len() ==> is_descendant(f, #[trigger] order[i], root),
        forall|x: ObjectId| is_descendant(f, x, root) ==> in_forest(f, x),
    ensures
        order.to_set() == descendants(f, root),
        descendants(f, root).finite(),
        order.len() == descendants(f, root).len(),
{
    assert forall|x: ObjectId| order.to_set().contains(x) <==> descendants(f, root).contains(
        x,
    ) by {
        if order.contains(x) {
            let i = choose|i: int| 0 <= i < order.len() && order[i] == x;
            assert(is_descendant(f, order[i], root));
        }
        if is_descendant(f, x, root) {
            lemma_breadth_first_complete(f, root, order, x);
        }
    }
    assert(order.to_set() =~= descendants(f, root));
    order.unique_seq_to_set();
    vstd::seq_lib::seq_to_set_is_finite(order);
}

/// Whatever lies below an object has a parent, and so is an object of the
/// forest.
pub proof fn lemma_descendant_in_forest(f: Forest, x: ObjectId, a: ObjectId)
    requires
        is_descendant(f, x, a),
    ensures
        in_forest(f, x),
{
    let k = choose|k: nat| k >= 1 && ancestor(f, x, k) == Some(a);
    assert(ancestor(f, x, 0) == Some(x));
    lemma_ancestor_add(f, x, 1, (k - 1) as nat);
    assert(ancestor(f, x, 1) == parent_of(f, x));
}

/// A child of the entry whose turn it is to be expanded is not yet listed.
pub proof fn lemma_unexpanded_child_is_new(
    f: Forest,
    root: ObjectId,
    order: Seq<ObjectId>,
    head: nat,
    c: ObjectId,
)
    requires
        is_forest(f),
        in_forest(f, root),
        head < order.len(),
        order == expansion(f, root, order, head),
        order.no_duplicates(),
        forall|i: int| 0 <= i < order.len() ==> is_descendant(f, #[trigger] order[i], root),
        parent_of(f, c) == Some(order[head as int]),
    ensures
        !order.contains(c),
{
    if order.contains(c) {
        let cur = order[head as int];
        lemma_expansion_source(f, root, order, head, c);
        if children_of(f, root).contains(c) {
            let j = choose|j: int| 0 <= j < children_of(f, root).len() && children_of(f, root)[j] == c;
            assert(parent_of(f, children_of(f, root)[j]) == Some(root));
            assert(is_descendant(f, order[head as int], root));
            lemma_no_self_descendant(f, root);
        } else {
            let i = choose|i: int| 0 <= i < head && #[trigger] children_of(f, order[i]).contains(c);
            let p = order[i];
            let j = choose|j: int| 0 <= j < children_of(f, p).len() && children_of(f, p)[j] == c;
            assert(in_forest(f, p));
            assert(parent_of(f, children_of(f, p)[j]) == Some(p));
        }
    }
}

/// Reparenting keeps parent and child in agreement. An object that is made
/// a root is no longer listed by its old parent and has no parent. An object
/// that is moved under a new parent is listed by that parent, names it as its
/// parent, and is listed by no other object. Either way the links still form
/// a forest.
pub proof fn lemma_reparent_consistent(
    f: Forest,
    x: ObjectId,
    p: ObjectId,
    new_parent: Option<ObjectId>,
)
    requires
        is_forest(f),
        in_forest(f, x),
        parent_of(f, x) == Some(p),
        may_reparent(f, x, new_parent),
    ensures
        is_forest(reparented(f, x, new_parent)),
        parent_of(reparented(f, x, new_parent), x) == new_parent,
        new_parent is None ==> !children_of(reparented(f, x, new_parent), p).contains(x),
        new_parent matches Some(q) ==> children_of(reparented(f, x, new_parent), q).contains(x),
        forall|y: ObjectId|
            children_of(reparented(f, x, new_parent), y).contains(x) ==> new_parent == Some(y),
{
    let d = detached(f, x);
    lemma_detached(f, x);
    let g = reparented(f, x, new_parent);
    match new_parent {
        None => {},
        Some(q) => {
            lemma_detached_below(f, x, q);
            lemma_attached(d, x, q);
        },
    }
    assert forall|y: ObjectId| children_of(g, y).contains(x) implies new_parent == Some(y) by {
        let j = choose|j: int| 0 <= j < children_of(g, y).len() && children_of(g, y)[j] == x;
        assert(in_forest(g, y));
        assert(parent_of(g, children_of(g, y)[j]) == Some(y));
    }
}

} // verus!
