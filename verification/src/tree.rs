use crate::entry::Entry;
use crate::entry::OccupiedEntry;
use crate::entry::VacantEntry;
use vstd::pervasive::unreached;
use vstd::prelude::*;
use vstd::set_lib::lemma_set_disjoint_lens;

verus! {

/// One node of a splay tree: a key, a value, two owning child links, and a
/// non-owning back-reference to the parent, recorded as the parent's key.
pub struct Node<V> {
    pub(crate) key: u64,
    pub(crate) value: V,
    pub(crate) parent: Option<u64>,
    pub(crate) left: Option<Box<Node<V>>>,
    pub(crate) right: Option<Box<Node<V>>>,
}

/// All keys of `m` are strictly smaller than `k`.
pub open spec fn below<V>(m: Map<u64, V>, k: u64) -> bool {
    forall|x: u64| m.dom().contains(x) ==> x < k
}

/// All keys of `m` are strictly greater than `k`.
pub open spec fn above<V>(m: Map<u64, V>, k: u64) -> bool {
    forall|x: u64| m.dom().contains(x) ==> x > k
}

impl<V> Node<V> {
    /// The key-value pairs stored in an optional subtree.
    pub closed spec fn entries_opt(n: Option<Box<Node<V>>>) -> Map<u64, V>
        decreases n,
    {
        match n {
            None => Map::empty(),
            Some(node) => node.entries(),
        }
    }

    /// The key-value pairs stored in the subtree rooted at this node.
    pub closed spec fn entries(self) -> Map<u64, V>
        decreases self,
    {
        Node::entries_opt(self.left).union_prefer_right(Node::entries_opt(self.right)).insert(
            self.key,
            self.value,
        )
    }

    /// The set of keys stored in the subtree rooted at this node.
    pub closed spec fn keys(self) -> Set<u64> {
        self.entries().dom()
    }

    /// The number of nodes in an optional subtree.
    pub closed spec fn size_opt(n: Option<Box<Node<V>>>) -> nat
        decreases n,
    {
        match n {
            None => 0,
            Some(node) => node.size(),
        }
    }

    /// The number of nodes in the subtree rooted at this node.
    pub closed spec fn size(self) -> nat
        decreases self,
    {
        1 + Node::size_opt(self.left) + Node::size_opt(self.right)
    }

    /// Well-formedness of the subtree rooted at this node: binary-search-tree
    /// order, and each child's parent slot pointing back at this node's key.
    pub closed spec fn well_formed(self) -> bool
        decreases self,
    {
        &&& (match self.left {
            Some(l) => l.well_formed() && l.parent == Some(self.key) && below(
                l.entries(),
                self.key,
            ),
            None => true,
        })
        &&& (match self.right {
            Some(r) => r.well_formed() && r.parent == Some(self.key) && above(
                r.entries(),
                self.key,
            ),
            None => true,
        })
    }

    /// The node's key, as a spec value.
    pub closed spec fn spec_key(self) -> u64 {
        self.key
    }

    /// The node's value, as a spec value.
    pub closed spec fn spec_value(self) -> V {
        self.value
    }

    /// The node's back-reference: its parent's key, or `None` at a root.
    pub closed spec fn spec_parent(self) -> Option<u64> {
        self.parent
    }

    /// The node's left child, as a spec value.
    pub closed spec fn spec_left(self) -> Option<Box<Node<V>>> {
        self.left
    }

    /// The node's right child, as a spec value.
    pub closed spec fn spec_right(self) -> Option<Box<Node<V>>> {
        self.right
    }

    /// The node's key.
    pub fn key(&self) -> (r: u64)
        ensures
            r == self.spec_key(),
    {
        self.key
    }

    /// A reference to the node's value.
    pub fn value(&self) -> (r: &V)
        ensures
            *r == self.spec_value(),
    {
        &self.value
    }

    /// The key of the node's parent, or `None` if the node is a root.
    pub fn parent(&self) -> (r: Option<u64>)
        ensures
            r == self.spec_parent(),
    {
        self.parent
    }

    /// `true` if the node is a root.
    pub fn is_root(&self) -> (r: bool)
        ensures
            r == (self.spec_parent() is None),
    {
        self.parent.is_none()
    }

    /// `true` if the node is a left child. Under the tree invariant a node
    /// with a parent is its parent's left child exactly when its key is less
    /// than the parent's key, so the side can be read off the back-reference.
    pub fn is_left(&self) -> (r: bool)
        ensures
            r == (self.spec_parent() matches Some(p) && self.spec_key() < p),
    {
        match self.parent {
            Some(p) => self.key < p,
            None => false,
        }
    }

    /// `true` if the node is a right child: it has a parent and its key is
    /// greater than the parent's key.
    pub fn is_right(&self) -> (r: bool)
        ensures
            r == (self.spec_parent() matches Some(p) && self.spec_key() > p),
    {
        match self.parent {
            Some(p) => self.key > p,
            None => false,
        }
    }

    /// A reference to the node's left child, or `None` if it has none.
    pub fn left(&self) -> (r: Option<&Node<V>>)
        ensures
            (r is Some) <==> (self.spec_left() is Some),
            r matches Some(l) ==> (self.spec_left() matches Some(bl) && *l == *bl),
    {
        match &self.left {
            Some(l) => Some(&**l),
            None => None,
        }
    }

    /// A reference to the node's right child, or `None` if it has none.
    pub fn right(&self) -> (r: Option<&Node<V>>)
        ensures
            (r is Some) <==> (self.spec_right() is Some),
            r matches Some(rc) ==> (self.spec_right() matches Some(br) && *rc == *br),
    {
        match &self.right {
            Some(r) => Some(&**r),
            None => None,
        }
    }

    /// A mutable reference to the node's value.
    pub fn value_mut(&mut self) -> (r: &mut V)
        ensures
            *r == old(self).spec_value(),
            final(self).spec_value() == *final(r),
            final(self).spec_key() == old(self).spec_key(),
            final(self).spec_parent() == old(self).spec_parent(),
            final(self).spec_left() == old(self).spec_left(),
            final(self).spec_right() == old(self).spec_right(),
    {
        &mut self.value
    }
}

/// A well-formed subtree holds exactly as many distinct keys as it has nodes.
proof fn lemma_entries_len<V>(n: Node<V>)
    requires
        n.well_formed(),
    ensures
        n.entries().dom().finite(),
        n.entries().dom().len() == n.size(),
    decreases n,
{
    let ld = Node::entries_opt(n.left).dom();
    let rd = Node::entries_opt(n.right).dom();
    match n.left {
        Some(l) => {
            lemma_entries_len(*l);
        },
        None => {
            assert(ld =~= Set::empty());
        },
    }
    match n.right {
        Some(r) => {
            lemma_entries_len(*r);
        },
        None => {
            assert(rd =~= Set::empty());
        },
    }
    assert(ld.disjoint(rd));
    lemma_set_disjoint_lens(ld, rd);
    assert(n.entries().dom() =~= ld.union(rd).insert(n.key));
    assert(!ld.union(rd).contains(n.key));
}

/// Unfolds one level of `well_formed`: a well-formed node's children are
/// well-formed subtrees, point back at it, and hold keys on the proper side.
proof fn lemma_wf_children<V>(n: Node<V>)
    requires
        n.well_formed(),
    ensures
        n.left matches Some(l) ==> l.well_formed() && l.parent == Some(n.key) && below(
            l.entries(),
            n.key,
        ),
        n.right matches Some(r) ==> r.well_formed() && r.parent == Some(n.key) && above(
            r.entries(),
            n.key,
        ),
{
}

/// Two nodes that agree on everything but their own parent slot root equal
/// subtrees: the subtree's contents and shape never read the root's own
/// back-reference.
proof fn lemma_relink<V>(a: Node<V>, b: Node<V>)
    requires
        a.key == b.key,
        a.value == b.value,
        a.left == b.left,
        a.right == b.right,
    ensures
        a.well_formed() == b.well_formed(),
        a.entries() == b.entries(),
        a.size() == b.size(),
{
}

/// Overwriting a node's value in place (and possibly its parent slot)
/// reshapes nothing: the subtree stays well-formed and only the one binding
/// changes.
proof fn lemma_reval<V>(a: Node<V>, b: Node<V>)
    requires
        a.key == b.key,
        a.left == b.left,
        a.right == b.right,
    ensures
        a.well_formed() == b.well_formed(),
        a.size() == b.size(),
        a.entries() == b.entries().insert(a.key, a.value),
{
    assert(a.entries() =~= b.entries().insert(a.key, a.value));
}

/// Outcome of the bottom-up splay walk over an owned subtree.
enum SplayStep<V> {
    /// The sought node now sits at the root of the returned subtree.
    AtRoot(Box<Node<V>>),
    /// The sought node sits directly below the returned root; the final
    /// rotation against the tree root (the zig case) is still owed.
    BelowRoot(Box<Node<V>>),
    /// The key is not in the subtree, which is returned unchanged.
    Missing(Box<Node<V>>),
}

/// The right rotation as a value-level transformation: the exact tree that
/// `rotate_right` builds, relinked back-references included. Equating a
/// result with this function pins the full post-rotation shape.
spec fn rot_right_spec<V>(n: Node<V>) -> Node<V> {
    match n.left {
        None => n,
        Some(l) => Node {
            key: l.key,
            value: l.value,
            parent: n.parent,
            left: l.left,
            right: Some(
                Box::new(
                    Node {
                        key: n.key,
                        value: n.value,
                        parent: Some(l.key),
                        left: match l.right {
                            None => None,
                            Some(b) => Some(Box::new(Node { parent: Some(n.key), ..*b })),
                        },
                        right: n.right,
                    },
                ),
            ),
        },
    }
}

/// The left rotation as a value-level transformation: the mirror of
/// `rot_right_spec`.
spec fn rot_left_spec<V>(n: Node<V>) -> Node<V> {
    match n.right {
        None => n,
        Some(r) => Node {
            key: r.key,
            value: r.value,
            parent: n.parent,
            right: r.right,
            left: Some(
                Box::new(
                    Node {
                        key: n.key,
                        value: n.value,
                        parent: Some(r.key),
                        right: match r.left {
                            None => None,
                            Some(b) => Some(Box::new(Node { parent: Some(n.key), ..*b })),
                        },
                        left: n.left,
                    },
                ),
            ),
        },
    }
}

/// The whole bottom-up splay walk as a value-level transformation, pairing
/// the path edges from the bottom exactly as `splay_rec` does. Contracts that
/// equate a walk's result with this function verify the zig-zig / zig-zag
/// discipline itself, shape for shape, rather than leaving it to tests.
spec fn splay_spec<V>(n: Node<V>, key: u64) -> SplayStep<V>
    decreases n,
{
    if key == n.key {
        SplayStep::AtRoot(Box::new(n))
    } else if key < n.key {
        match n.left {
            None => SplayStep::Missing(Box::new(n)),
            Some(c) => match splay_spec(*c, key) {
                SplayStep::Missing(c2) => SplayStep::Missing(
                    Box::new(Node { left: Some(c2), ..n }),
                ),
                SplayStep::AtRoot(c2) => SplayStep::BelowRoot(
                    Box::new(Node { left: Some(c2), ..n }),
                ),
                SplayStep::BelowRoot(c2) => if key < c2.key {
                    SplayStep::AtRoot(
                        Box::new(rot_right_spec(rot_right_spec(Node { left: Some(c2), ..n }))),
                    )
                } else {
                    SplayStep::AtRoot(
                        Box::new(
                            rot_right_spec(
                                Node { left: Some(Box::new(rot_left_spec(*c2))), ..n },
                            ),
                        ),
                    )
                },
            },
        }
    } else {
        match n.right {
            None => SplayStep::Missing(Box::new(n)),
            Some(c) => match splay_spec(*c, key) {
                SplayStep::Missing(c2) => SplayStep::Missing(
                    Box::new(Node { right: Some(c2), ..n }),
                ),
                SplayStep::AtRoot(c2) => SplayStep::BelowRoot(
                    Box::new(Node { right: Some(c2), ..n }),
                ),
                SplayStep::BelowRoot(c2) => if key > c2.key {
                    SplayStep::AtRoot(
                        Box::new(rot_left_spec(rot_left_spec(Node { right: Some(c2), ..n }))),
                    )
                } else {
                    SplayStep::AtRoot(
                        Box::new(
                            rot_left_spec(
                                Node { right: Some(Box::new(rot_right_spec(*c2))), ..n },
                            ),
                        ),
                    )
                },
            },
        }
    }
}

/// The insert walk as a value-level transformation: an overwrite in place on
/// a hit, a fresh leaf linked at the walk's end on a miss, and the same
/// bottom-up splay pairing as `splay_spec` on the way out. The walk never
/// misses, so no reachable branch yields `Missing`.
spec fn insert_spec<V>(n: Node<V>, key: u64, value: V) -> SplayStep<V>
    decreases n,
{
    if key == n.key {
        SplayStep::AtRoot(Box::new(Node { value, ..n }))
    } else if key < n.key {
        match n.left {
            None => SplayStep::BelowRoot(
                Box::new(
                    Node {
                        left: Some(
                            Box::new(
                                Node { key, value, parent: Some(n.key), left: None, right: None },
                            ),
                        ),
                        ..n
                    },
                ),
            ),
            Some(c) => match insert_spec(*c, key, value) {
                SplayStep::Missing(c2) => SplayStep::Missing(c2),
                SplayStep::AtRoot(c2) => SplayStep::BelowRoot(
                    Box::new(Node { left: Some(c2), ..n }),
                ),
                SplayStep::BelowRoot(c2) => if key < c2.key {
                    SplayStep::AtRoot(
                        Box::new(rot_right_spec(rot_right_spec(Node { left: Some(c2), ..n }))),
                    )
                } else {
                    SplayStep::AtRoot(
                        Box::new(
                            rot_right_spec(
                                Node { left: Some(Box::new(rot_left_spec(*c2))), ..n },
                            ),
                        ),
                    )
                },
            },
        }
    } else {
        match n.right {
            None => SplayStep::BelowRoot(
                Box::new(
                    Node {
                        right: Some(
                            Box::new(
                                Node { key, value, parent: Some(n.key), left: None, right: None },
                            ),
                        ),
                        ..n
                    },
                ),
            ),
            Some(c) => match insert_spec(*c, key, value) {
                SplayStep::Missing(c2) => SplayStep::Missing(c2),
                SplayStep::AtRoot(c2) => SplayStep::BelowRoot(
                    Box::new(Node { right: Some(c2), ..n }),
                ),
                SplayStep::BelowRoot(c2) => if key > c2.key {
                    SplayStep::AtRoot(
                        Box::new(rot_left_spec(rot_left_spec(Node { right: Some(c2), ..n }))),
                    )
                } else {
                    SplayStep::AtRoot(
                        Box::new(
                            rot_left_spec(
                                Node { right: Some(Box::new(rot_right_spec(*c2))), ..n },
                            ),
                        ),
                    )
                },
            },
        }
    }
}

/// The right-only walk to the maximum as a value-level transformation, with
/// the same bottom-up splay pairing; every double step is a zig-zig.
spec fn splay_max_spec<V>(n: Node<V>) -> SplayStep<V>
    decreases n,
{
    match n.right {
        None => SplayStep::AtRoot(Box::new(n)),
        Some(c) => match splay_max_spec(*c) {
            SplayStep::Missing(c2) => SplayStep::Missing(c2),
            SplayStep::AtRoot(c2) => SplayStep::BelowRoot(Box::new(Node { right: Some(c2), ..n })),
            SplayStep::BelowRoot(c2) => SplayStep::AtRoot(
                Box::new(rot_left_spec(rot_left_spec(Node { right: Some(c2), ..n }))),
            ),
        },
    }
}

/// The left-only walk to the minimum: the mirror of `splay_max_spec`.
spec fn splay_min_spec<V>(n: Node<V>) -> SplayStep<V>
    decreases n,
{
    match n.left {
        None => SplayStep::AtRoot(Box::new(n)),
        Some(c) => match splay_min_spec(*c) {
            SplayStep::Missing(c2) => SplayStep::Missing(c2),
            SplayStep::AtRoot(c2) => SplayStep::BelowRoot(Box::new(Node { left: Some(c2), ..n })),
            SplayStep::BelowRoot(c2) => SplayStep::AtRoot(
                Box::new(rot_right_spec(rot_right_spec(Node { left: Some(c2), ..n }))),
            ),
        },
    }
}

/// The owed zig rotation: applied when the walk hands its node up directly
/// below the tree root, skipped when the node already is the root or the walk
/// missed.
spec fn finish_spec<V>(step: SplayStep<V>, key: u64) -> Option<Box<Node<V>>> {
    match step {
        SplayStep::AtRoot(m) => Some(m),
        SplayStep::Missing(m) => Some(m),
        SplayStep::BelowRoot(m) => Some(
            Box::new(
                if key < m.key {
                    rot_right_spec(*m)
                } else {
                    rot_left_spec(*m)
                },
            ),
        ),
    }
}

/// Detaching a subtree: its root's back-reference is cleared.
spec fn clear_parent_spec<V>(n: Option<Box<Node<V>>>) -> Option<Box<Node<V>>> {
    match n {
        None => None,
        Some(b) => Some(Box::new(Node { parent: None, ..*b })),
    }
}

/// The merge of two detached subtrees as a value-level transformation: the
/// left subtree's maximum is splayed to its local root (with the owed zig
/// applied there) and the right subtree is attached unchanged as its right
/// child, back-reference updated.
spec fn merge_spec<V>(l: Node<V>, r: Node<V>) -> Node<V> {
    let lm = match splay_max_spec(l) {
        SplayStep::AtRoot(m) => *m,
        SplayStep::BelowRoot(m) => rot_left_spec(*m),
        SplayStep::Missing(m) => *m,
    };
    Node { right: Some(Box::new(Node { parent: Some(lm.key), ..r })), ..lm }
}

/// Rotation at the root of an owned subtree: promotes the left child into
/// the root's place, reattaches the promoted node's former right subtree as
/// the demoted node's left subtree, and rewrites the three affected
/// back-references along with the two child slots.
fn rotate_right<V>(n: Box<Node<V>>) -> (r: Box<Node<V>>)
    requires
        n.well_formed(),
        n.spec_left() is Some,
    ensures
        r.well_formed(),
        r.entries() == n.entries(),
        r.size() == n.size(),
        r.spec_parent() == n.spec_parent(),
        r.spec_key() == n.spec_left().unwrap().spec_key(),
        r.spec_value() == n.spec_left().unwrap().spec_value(),
        r.spec_left() == n.spec_left().unwrap().spec_left(),
        r.spec_right() matches Some(d) && d.spec_key() == n.spec_key() && d.spec_value()
            == n.spec_value() && d.spec_right() == n.spec_right() && d.spec_parent() == Some(
        r.spec_key()) && Node::entries_opt(d.spec_left()) == Node::entries_opt(
            n.spec_left().unwrap().spec_right(),
        ),
        *r == rot_right_spec(*n),
{
    let ghost n0 = *n;
    let mut n = n;
    let mut l = n.left.take().unwrap();
    let ghost l0 = *l;
    let b = l.right.take();
    let b = match b {
        Some(mut bn) => {
            proof {
                assert(l0.right == Some(bn));
            }
            let ghost b0 = *bn;
            bn.parent = Some(n.key);
            proof {
                lemma_relink(*bn, b0);
                assert(bn.entries() == Node::entries_opt(l0.right));
                assert(bn.size() == Node::size_opt(l0.right));
            }
            Some(bn)
        },
        None => None,
    };
    n.left = b;
    l.parent = n.parent;
    n.parent = Some(l.key);
    proof {
        lemma_wf_children(n0);
        lemma_wf_children(l0);
        assert(l0.entries().dom().contains(l0.key));
        assert(below(l0.entries(), n0.key));
        assert(forall|x: u64|
            Node::entries_opt(l0.right).dom().contains(x) ==> l0.entries().dom().contains(x));
        assert(forall|x: u64|
            Node::entries_opt(l0.left).dom().contains(x) ==> l0.entries().dom().contains(x));
        assert(above(Node::entries_opt(n.right), l0.key));
        assert(Node::entries_opt(n.left) == Node::entries_opt(l0.right));
        assert(Node::size_opt(n.left) == Node::size_opt(l0.right));
        assert(n0.size() == 1 + l0.size() + Node::size_opt(n0.right));
        assert(l0.size() == 1 + Node::size_opt(l0.left) + Node::size_opt(l0.right));
        assert(n.size() == 1 + Node::size_opt(l0.right) + Node::size_opt(n0.right));
        assert forall|x: u64| Node::entries_opt(n.left).dom().contains(x) implies x
            < n0.key by {
            assert(l0.entries().dom().contains(x));
        }
        assert(below(Node::entries_opt(n.left), n.key));
        assert(n.well_formed());
        assert(n.entries() =~= Node::entries_opt(l0.right).union_prefer_right(
            Node::entries_opt(n0.right),
        ).insert(n0.key, n0.value));
        assert(above(n.entries(), l0.key));
    }
    l.right = Some(n);
    proof {
        assert(l.well_formed());
        assert(l.entries() =~= n0.entries());
        assert(*l == rot_right_spec(n0));
    }
    l
}

/// The mirror image of `rotate_right`: promotes the right child and
/// reattaches its former left subtree as the demoted node's right subtree.
fn rotate_left<V>(n: Box<Node<V>>) -> (r: Box<Node<V>>)
    requires
        n.well_formed(),
        n.spec_right() is Some,
    ensures
        r.well_formed(),
        r.entries() == n.entries(),
        r.size() == n.size(),
        r.spec_parent() == n.spec_parent(),
        r.spec_key() == n.spec_right().unwrap().spec_key(),
        r.spec_value() == n.spec_right().unwrap().spec_value(),
        r.spec_right() == n.spec_right().unwrap().spec_right(),
        r.spec_left() matches Some(d) && d.spec_key() == n.spec_key() && d.spec_value()
            == n.spec_value() && d.spec_left() == n.spec_left() && d.spec_parent() == Some(
        r.spec_key()) && Node::entries_opt(d.spec_right()) == Node::entries_opt(
            n.spec_right().unwrap().spec_left(),
        ),
        *r == rot_left_spec(*n),
{
    let ghost n0 = *n;
    let mut n = n;
    let mut rc = n.right.take().unwrap();
    let ghost r0 = *rc;
    let b = rc.left.take();
    let b = match b {
        Some(mut bn) => {
            proof {
                assert(r0.left == Some(bn));
            }
            let ghost b0 = *bn;
            bn.parent = Some(n.key);
            proof {
                lemma_relink(*bn, b0);
                assert(bn.entries() == Node::entries_opt(r0.left));
                assert(bn.size() == Node::size_opt(r0.left));
            }
            Some(bn)
        },
        None => None,
    };
    n.right = b;
    rc.parent = n.parent;
    n.parent = Some(rc.key);
    proof {
        lemma_wf_children(n0);
        lemma_wf_children(r0);
        assert(r0.entries().dom().contains(r0.key));
        assert(above(r0.entries(), n0.key));
        assert(forall|x: u64|
            Node::entries_opt(r0.left).dom().contains(x) ==> r0.entries().dom().contains(x));
        assert(forall|x: u64|
            Node::entries_opt(r0.right).dom().contains(x) ==> r0.entries().dom().contains(x));
        assert(below(Node::entries_opt(n.left), r0.key));
        assert(Node::entries_opt(n.right) == Node::entries_opt(r0.left));
        assert(Node::size_opt(n.right) == Node::size_opt(r0.left));
        assert(n0.size() == 1 + Node::size_opt(n0.left) + r0.size());
        assert(r0.size() == 1 + Node::size_opt(r0.left) + Node::size_opt(r0.right));
        assert(n.size() == 1 + Node::size_opt(n0.left) + Node::size_opt(r0.left));
        assert forall|x: u64| Node::entries_opt(n.right).dom().contains(x) implies x
            > n0.key by {
            assert(r0.entries().dom().contains(x));
        }
        assert(above(Node::entries_opt(n.right), n.key));
        assert(n.well_formed());
        assert(n.entries() =~= Node::entries_opt(n0.left).union_prefer_right(
            Node::entries_opt(r0.left),
        ).insert(n0.key, n0.value));
        assert(below(n.entries(), r0.key));
    }
    rc.left = Some(n);
    proof {
        assert(rc.well_formed());
        assert(rc.entries() =~= n0.entries());
        assert(*rc == rot_left_spec(n0));
    }
    rc
}

/// The bottom-up splay walk over an owned subtree. The walk descends to the
/// sought key and, returning, pairs the path edges from the bottom: whenever
/// the sought node has come to rest two levels below the current root, one
/// zig-zig or zig-zag double rotation is applied, re-evaluating the
/// classification after every step. A node that comes to rest directly below
/// the current root is handed up as `BelowRoot`, since only the caller knows
/// whether the owed single rotation is the zig case against the tree root.
/// A miss leaves the subtree untouched.
fn splay_rec<V>(n: Box<Node<V>>, key: u64) -> (r: SplayStep<V>)
    requires
        n.well_formed(),
    ensures
        r == splay_spec(*n, key),
        match r {
            SplayStep::AtRoot(m) => {
                &&& n.entries().dom().contains(key)
                &&& m.well_formed()
                &&& m.entries() == n.entries()
                &&& m.size() == n.size()
                &&& m.spec_parent() == n.spec_parent()
                &&& m.spec_key() == key
            },
            SplayStep::BelowRoot(m) => {
                &&& n.entries().dom().contains(key)
                &&& m.well_formed()
                &&& m.entries() == n.entries()
                &&& m.size() == n.size()
                &&& m.spec_parent() == n.spec_parent()
                &&& m.spec_key() != key
                &&& (key < m.spec_key() ==> (m.spec_left() matches Some(l) && l.spec_key()
                    == key))
                &&& (key > m.spec_key() ==> (m.spec_right() matches Some(rc) && rc.spec_key()
                    == key))
            },
            SplayStep::Missing(m) => {
                &&& !n.entries().dom().contains(key)
                &&& m == n
            },
        },
    decreases n,
{
    let ghost n0 = *n;
    let mut n = n;
    if key == n.key {
        SplayStep::AtRoot(n)
    } else if key < n.key {
        match n.left.take() {
            None => {
                proof {
                    assert(!n0.entries().dom().contains(key));
                    assert(*n == n0);
                }
                SplayStep::Missing(n)
            },
            Some(c) => {
                let ghost c0 = *c;
                proof {
                    assert(forall|x: u64|
                        c0.entries().dom().contains(x) ==> n0.entries().dom().contains(x));
                    assert(n0.entries().dom().contains(key) ==> c0.entries().dom().contains(
                        key,
                    ));
                }
                match splay_rec(c, key) {
                    SplayStep::Missing(c2) => {
                        n.left = Some(c2);
                        proof {
                            assert(*n == n0);
                        }
                        SplayStep::Missing(n)
                    },
                    SplayStep::AtRoot(c2) => {
                        n.left = Some(c2);
                        proof {
                            assert(n.well_formed());
                            assert(n.entries() == n0.entries());
                        }
                        SplayStep::BelowRoot(n)
                    },
                    SplayStep::BelowRoot(c2) => {
                        let go_left = key < c2.key;
                        if go_left {
                            // zig-zig: rotate at the grandparent, then at the
                            // parent, the same direction twice
                            n.left = Some(c2);
                            proof {
                                assert(n.well_formed());
                                assert(n.entries() == n0.entries());
                            }
                            let m = rotate_right(n);
                            let m = rotate_right(m);
                            SplayStep::AtRoot(m)
                        } else {
                            // zig-zag: rotate at the parent toward the sought
                            // node, then at the former grandparent the other way
                            let c3 = rotate_left(c2);
                            n.left = Some(c3);
                            proof {
                                assert(n.well_formed());
                                assert(n.entries() == n0.entries());
                            }
                            let m = rotate_right(n);
                            SplayStep::AtRoot(m)
                        }
                    },
                }
            },
        }
    } else {
        match n.right.take() {
            None => {
                proof {
                    assert(!n0.entries().dom().contains(key));
                    assert(*n == n0);
                }
                SplayStep::Missing(n)
            },
            Some(c) => {
                let ghost c0 = *c;
                proof {
                    assert(forall|x: u64|
                        c0.entries().dom().contains(x) ==> n0.entries().dom().contains(x));
                    assert(n0.entries().dom().contains(key) ==> c0.entries().dom().contains(
                        key,
                    ));
                }
                match splay_rec(c, key) {
                    SplayStep::Missing(c2) => {
                        n.right = Some(c2);
                        proof {
                            assert(*n == n0);
                        }
                        SplayStep::Missing(n)
                    },
                    SplayStep::AtRoot(c2) => {
                        n.right = Some(c2);
                        proof {
                            assert(n.well_formed());
                            assert(n.entries() == n0.entries());
                        }
                        SplayStep::BelowRoot(n)
                    },
                    SplayStep::BelowRoot(c2) => {
                        let go_right = key > c2.key;
                        if go_right {
                            // zig-zig: rotate at the grandparent, then at the
                            // parent, the same direction twice
                            n.right = Some(c2);
                            proof {
                                assert(n.well_formed());
                                assert(n.entries() == n0.entries());
                            }
                            let m = rotate_left(n);
                            let m = rotate_left(m);
                            SplayStep::AtRoot(m)
                        } else {
                            // zig-zag: rotate at the parent toward the sought
                            // node, then at the former grandparent the other way
                            let c3 = rotate_right(c2);
                            n.right = Some(c3);
                            proof {
                                assert(n.well_formed());
                                assert(n.entries() == n0.entries());
                            }
                            let m = rotate_left(n);
                            SplayStep::AtRoot(m)
                        }
                    },
                }
            },
        }
    }
}

/// The insert walk: runs the find walk for `key` and, where the walk falls
/// off the tree, links a fresh node under the walk's terminal node, on the
/// side the last comparison chose. On the way back up the new (or matched)
/// node is splayed exactly as in `splay_rec`. The second component reports
/// whether a node was created, as opposed to a value overwritten in place.
fn insert_rec<V>(n: Box<Node<V>>, key: u64, value: V) -> (r: (SplayStep<V>, bool))
    requires
        n.well_formed(),
    ensures
        r.0 == insert_spec(*n, key, value),
        r.1 == !n.entries().dom().contains(key),
        match r.0 {
            SplayStep::AtRoot(m) => {
                &&& m.well_formed()
                &&& m.entries() == n.entries().insert(key, value)
                &&& m.size() == n.size() + (if r.1 {
                    1nat
                } else {
                    0nat
                })
                &&& m.spec_parent() == n.spec_parent()
                &&& m.spec_key() == key
            },
            SplayStep::BelowRoot(m) => {
                &&& m.well_formed()
                &&& m.entries() == n.entries().insert(key, value)
                &&& m.size() == n.size() + (if r.1 {
                    1nat
                } else {
                    0nat
                })
                &&& m.spec_parent() == n.spec_parent()
                &&& m.spec_key() != key
                &&& (key < m.spec_key() ==> (m.spec_left() matches Some(l) && l.spec_key()
                    == key))
                &&& (key > m.spec_key() ==> (m.spec_right() matches Some(rc) && rc.spec_key()
                    == key))
            },
            SplayStep::Missing(_) => false,
        },
    decreases n,
{
    let ghost n0 = *n;
    let mut n = n;
    if key == n.key {
        n.value = value;
        proof {
            lemma_reval(*n, n0);
            assert(!Node::entries_opt(n0.left).dom().contains(key));
            assert(!Node::entries_opt(n0.right).dom().contains(key));
        }
        (SplayStep::AtRoot(n), false)
    } else if key < n.key {
        match n.left.take() {
            None => {
                let fresh = Box::new(
                    Node { key, value, parent: Some(n.key), left: None, right: None },
                );
                proof {
                    lemma_wf_children(n0);
                    assert(fresh.entries() =~= Map::<u64, V>::empty().insert(key, value));
                    assert(fresh.size() == 1);
                    assert(fresh.well_formed());
                    assert(!n0.entries().dom().contains(key));
                }
                n.left = Some(fresh);
                proof {
                    assert(n.well_formed());
                    assert(n.entries() =~= n0.entries().insert(key, value));
                    assert(n0.size() == 1 + Node::size_opt(n0.left) + Node::size_opt(n0.right));
                    assert(n.size() == n0.size() + 1);
                }
                (SplayStep::BelowRoot(n), true)
            },
            Some(c) => {
                let ghost c0 = *c;
                proof {
                    lemma_wf_children(n0);
                    assert(forall|x: u64|
                        c0.entries().dom().contains(x) ==> n0.entries().dom().contains(x));
                    assert(n0.entries().dom().contains(key) ==> c0.entries().dom().contains(
                        key,
                    ));
                }
                let (step, inserted) = insert_rec(c, key, value);
                match step {
                    SplayStep::Missing(_) => unreached(),
                    SplayStep::AtRoot(c2) => {
                        n.left = Some(c2);
                        proof {
                            assert(below(c2.entries(), n0.key));
                            assert(n.well_formed());
                            assert(n.entries() =~= n0.entries().insert(key, value));
                        }
                        (SplayStep::BelowRoot(n), inserted)
                    },
                    SplayStep::BelowRoot(c2) => {
                        let go_left = key < c2.key;
                        if go_left {
                            // zig-zig: rotate at the grandparent, then at the
                            // parent, the same direction twice
                            n.left = Some(c2);
                            proof {
                                assert(below(c2.entries(), n0.key));
                                assert(n.well_formed());
                                assert(n.entries() =~= n0.entries().insert(key, value));
                            }
                            let m = rotate_right(n);
                            let m = rotate_right(m);
                            (SplayStep::AtRoot(m), inserted)
                        } else {
                            // zig-zag: rotate at the parent toward the new
                            // node, then at the former grandparent the other way
                            let c3 = rotate_left(c2);
                            n.left = Some(c3);
                            proof {
                                assert(below(c3.entries(), n0.key));
                                assert(n.well_formed());
                                assert(n.entries() =~= n0.entries().insert(key, value));
                            }
                            let m = rotate_right(n);
                            (SplayStep::AtRoot(m), inserted)
                        }
                    },
                }
            },
        }
    } else {
        match n.right.take() {
            None => {
                let fresh = Box::new(
                    Node { key, value, parent: Some(n.key), left: None, right: None },
                );
                proof {
                    lemma_wf_children(n0);
                    assert(fresh.entries() =~= Map::<u64, V>::empty().insert(key, value));
                    assert(fresh.size() == 1);
                    assert(fresh.well_formed());
                    assert(!n0.entries().dom().contains(key));
                }
                n.right = Some(fresh);
                proof {
                    assert(n.well_formed());
                    assert(n.entries() =~= n0.entries().insert(key, value));
                    assert(n0.size() == 1 + Node::size_opt(n0.left) + Node::size_opt(n0.right));
                    assert(n.size() == n0.size() + 1);
                }
                (SplayStep::BelowRoot(n), true)
            },
            Some(c) => {
                let ghost c0 = *c;
                proof {
                    lemma_wf_children(n0);
                    assert(forall|x: u64|
                        c0.entries().dom().contains(x) ==> n0.entries().dom().contains(x));
                    assert(n0.entries().dom().contains(key) ==> c0.entries().dom().contains(
                        key,
                    ));
                }
                let (step, inserted) = insert_rec(c, key, value);
                match step {
                    SplayStep::Missing(_) => unreached(),
                    SplayStep::AtRoot(c2) => {
                        n.right = Some(c2);
                        proof {
                            assert(above(c2.entries(), n0.key));
                            assert(n.well_formed());
                            assert(n.entries() =~= n0.entries().insert(key, value));
                        }
                        (SplayStep::BelowRoot(n), inserted)
                    },
                    SplayStep::BelowRoot(c2) => {
                        let go_right = key > c2.key;
                        if go_right {
                            // zig-zig: rotate at the grandparent, then at the
                            // parent, the same direction twice
                            n.right = Some(c2);
                            proof {
                                assert(above(c2.entries(), n0.key));
                                assert(n.well_formed());
                                assert(n.entries() =~= n0.entries().insert(key, value));
                            }
                            let m = rotate_left(n);
                            let m = rotate_left(m);
                            (SplayStep::AtRoot(m), inserted)
                        } else {
                            // zig-zag: rotate at the parent toward the new
                            // node, then at the former grandparent the other way
                            let c3 = rotate_right(c2);
                            n.right = Some(c3);
                            proof {
                                assert(above(c3.entries(), n0.key));
                                assert(n.well_formed());
                                assert(n.entries() =~= n0.entries().insert(key, value));
                            }
                            let m = rotate_left(n);
                            (SplayStep::AtRoot(m), inserted)
                        }
                    },
                }
            },
        }
    }
}

/// The right-only walk: descends to the node with the greatest key (no
/// comparisons are needed) and splays it on the way back up, pairing the
/// rotation steps from the bottom exactly as `splay_rec` does. Since the walk
/// is right-only, every double rotation is a zig-zig.
fn splay_max_rec<V>(n: Box<Node<V>>) -> (r: SplayStep<V>)
    requires
        n.well_formed(),
    ensures
        r == splay_max_spec(*n),
        match r {
            SplayStep::AtRoot(m) => {
                &&& m.well_formed()
                &&& m.entries() == n.entries()
                &&& m.size() == n.size()
                &&& m.spec_parent() == n.spec_parent()
                &&& m.spec_right() is None
                &&& n.entries().dom().contains(m.spec_key())
                &&& (forall|x: u64| n.entries().dom().contains(x) ==> x <= m.spec_key())
            },
            SplayStep::BelowRoot(m) => {
                &&& m.well_formed()
                &&& m.entries() == n.entries()
                &&& m.size() == n.size()
                &&& m.spec_parent() == n.spec_parent()
                &&& (m.spec_right() matches Some(t) && t.spec_right() is None
                    && n.entries().dom().contains(t.spec_key()) && (forall|x: u64|
                    n.entries().dom().contains(x) ==> x <= t.spec_key()))
            },
            SplayStep::Missing(_) => false,
        },
    decreases n,
{
    let ghost n0 = *n;
    let mut n = n;
    match n.right.take() {
        None => {
            proof {
                lemma_wf_children(n0);
                assert(*n == n0);
                assert(n0.entries().dom().contains(n0.key));
                assert(forall|x: u64|
                    n0.entries().dom().contains(x) ==> x <= n0.key);
            }
            SplayStep::AtRoot(n)
        },
        Some(c) => {
            let ghost c0 = *c;
            proof {
                lemma_wf_children(n0);
                assert(forall|x: u64|
                    c0.entries().dom().contains(x) ==> n0.entries().dom().contains(x));
            }
            match splay_max_rec(c) {
                SplayStep::Missing(_) => unreached(),
                SplayStep::AtRoot(c2) => {
                    n.right = Some(c2);
                    proof {
                        assert(n.well_formed());
                        assert(n.entries() == n0.entries());
                        assert(n0.entries().dom().contains(n0.key));
                        assert(forall|x: u64|
                            n0.entries().dom().contains(x) ==> x <= c2.spec_key());
                    }
                    SplayStep::BelowRoot(n)
                },
                SplayStep::BelowRoot(c2) => {
                    // zig-zig: rotate at the grandparent, then at the parent
                    n.right = Some(c2);
                    proof {
                        assert(n.well_formed());
                        assert(n.entries() == n0.entries());
                    }
                    let m = rotate_left(n);
                    let m = rotate_left(m);
                    SplayStep::AtRoot(m)
                },
            }
        },
    }
}

/// The mirror of `splay_max_rec`: descends left-only to the node with the
/// least key and splays it on the way back up.
fn splay_min_rec<V>(n: Box<Node<V>>) -> (r: SplayStep<V>)
    requires
        n.well_formed(),
    ensures
        r == splay_min_spec(*n),
        match r {
            SplayStep::AtRoot(m) => {
                &&& m.well_formed()
                &&& m.entries() == n.entries()
                &&& m.size() == n.size()
                &&& m.spec_parent() == n.spec_parent()
                &&& m.spec_left() is None
                &&& n.entries().dom().contains(m.spec_key())
                &&& (forall|x: u64| n.entries().dom().contains(x) ==> x >= m.spec_key())
            },
            SplayStep::BelowRoot(m) => {
                &&& m.well_formed()
                &&& m.entries() == n.entries()
                &&& m.size() == n.size()
                &&& m.spec_parent() == n.spec_parent()
                &&& (m.spec_left() matches Some(t) && t.spec_left() is None
                    && n.entries().dom().contains(t.spec_key()) && (forall|x: u64|
                    n.entries().dom().contains(x) ==> x >= t.spec_key()))
            },
            SplayStep::Missing(_) => false,
        },
    decreases n,
{
    let ghost n0 = *n;
    let mut n = n;
    match n.left.take() {
        None => {
            proof {
                lemma_wf_children(n0);
                assert(*n == n0);
                assert(n0.entries().dom().contains(n0.key));
                assert(forall|x: u64|
                    n0.entries().dom().contains(x) ==> x >= n0.key);
            }
            SplayStep::AtRoot(n)
        },
        Some(c) => {
            let ghost c0 = *c;
            proof {
                lemma_wf_children(n0);
                assert(forall|x: u64|
                    c0.entries().dom().contains(x) ==> n0.entries().dom().contains(x));
            }
            match splay_min_rec(c) {
                SplayStep::Missing(_) => unreached(),
                SplayStep::AtRoot(c2) => {
                    n.left = Some(c2);
                    proof {
                        assert(n.well_formed());
                        assert(n.entries() == n0.entries());
                        assert(n0.entries().dom().contains(n0.key));
                        assert(forall|x: u64|
                            n0.entries().dom().contains(x) ==> x >= c2.spec_key());
                    }
                    SplayStep::BelowRoot(n)
                },
                SplayStep::BelowRoot(c2) => {
                    // zig-zig: rotate at the grandparent, then at the parent
                    n.left = Some(c2);
                    proof {
                        assert(n.well_formed());
                        assert(n.entries() == n0.entries());
                    }
                    let m = rotate_right(n);
                    let m = rotate_right(m);
                    SplayStep::AtRoot(m)
                },
            }
        },
    }
}

/// Joins two independent, parent-cleared subtrees whose key ranges do not
/// overlap: the maximum of the left subtree is splayed to that subtree's
/// local root — which then has no right child — and the right subtree is
/// attached there as its right child.
fn merge<V>(l: Box<Node<V>>, r: Box<Node<V>>) -> (m: Box<Node<V>>)
    requires
        l.well_formed(),
        r.well_formed(),
        forall|x: u64, y: u64|
            l.entries().dom().contains(x) && r.entries().dom().contains(y) ==> x < y,
    ensures
        m.well_formed(),
        m.entries() == l.entries().union_prefer_right(r.entries()),
        m.size() == l.size() + r.size(),
        m.spec_parent() == l.spec_parent(),
        l.entries().dom().contains(m.spec_key()),
        forall|x: u64| l.entries().dom().contains(x) ==> x <= m.spec_key(),
        *m == merge_spec(*l, *r),
        m.spec_right() matches Some(rr) && *rr == (Node { parent: Some(m.spec_key()), ..*r }),
{
    let ghost l0 = *l;
    let ghost r0 = *r;
    let mut lm = match splay_max_rec(l) {
        SplayStep::Missing(_) => unreached(),
        SplayStep::AtRoot(m) => m,
        SplayStep::BelowRoot(m) => rotate_left(m),
    };
    let ghost lm0 = *lm;
    let mut r = r;
    r.parent = Some(lm.key);
    proof {
        lemma_relink(*r, r0);
        assert(above(r.entries(), lm0.key));
        assert(lm0.size() == 1 + Node::size_opt(lm0.left) + Node::size_opt(lm0.right));
    }
    lm.right = Some(r);
    proof {
        assert(lm.well_formed());
        assert(lm.entries() =~= l0.entries().union_prefer_right(r0.entries()));
        assert(lm.size() == l0.size() + r0.size());
        assert(*lm == merge_spec(l0, r0));
    }
    lm
}

/// A splay tree: an ordered map from `u64` keys to values of type `V`,
/// rebalanced by rotating each accessed node to the root.
pub struct SplayTree<V> {
    root: Option<Box<Node<V>>>,
    length: usize,
}

impl<V> View for SplayTree<V> {
    type V = Map<u64, V>;

    closed spec fn view(&self) -> Map<u64, V> {
        Node::entries_opt(self.root)
    }
}

impl<V> SplayTree<V> {
    /// Structural invariant: the root, if any, is a well-formed subtree whose
    /// parent slot is empty, and `length` counts the reachable nodes.
    pub closed spec fn well_formed(self) -> bool {
        match self.root {
            Some(r) => r.well_formed() && r.parent is None && self.length == r.size(),
            None => self.length == 0,
        }
    }

    /// The key at the root, or `None` for the empty tree.
    pub closed spec fn root_key(self) -> Option<u64> {
        match self.root {
            Some(r) => Some(r.key),
            None => None,
        }
    }

    /// The stored node count, as a spec value.
    pub closed spec fn len_spec(self) -> usize {
        self.length
    }

    /// The root node, as a spec value.
    pub closed spec fn spec_root(self) -> Option<Box<Node<V>>> {
        self.root
    }

    /// The tree after the find walk for `key`: on a hit the matched node is
    /// splayed to the root, with the owed zig rotation applied against the
    /// root; on a miss the tree is unchanged. Contracts equating the new
    /// state with this function pin the exact post-splay shape.
    pub closed spec fn splayed_for(self, key: u64) -> SplayTree<V> {
        match self.root {
            None => self,
            Some(rt) => SplayTree {
                root: finish_spec(splay_spec(*rt, key), key),
                length: self.length,
            },
        }
    }

    /// The tree after inserting `value` under `key`: an overwrite in place on
    /// a hit, a fresh leaf linked at the walk's end on a miss, the touched
    /// node splayed to the root either way, and the length grown only by an
    /// actual insertion.
    pub closed spec fn with_inserted(self, key: u64, value: V) -> SplayTree<V> {
        match self.root {
            None => SplayTree {
                root: Some(
                    Box::new(Node { key, value, parent: None, left: None, right: None }),
                ),
                length: 1,
            },
            Some(rt) => SplayTree {
                root: finish_spec(insert_spec(*rt, key, value), key),
                length: if rt.entries().dom().contains(key) {
                    self.length
                } else {
                    (self.length + 1) as usize
                },
            },
        }
    }

    /// The tree after removing `key`: the matched node is splayed to the
    /// root, its subtrees are detached by clearing their back-references,
    /// and they are merged — the left subtree's maximum, splayed, takes the
    /// root, with the right subtree attached unchanged as its right child.
    /// A miss changes nothing.
    pub closed spec fn with_removed(self, key: u64) -> SplayTree<V> {
        if !Node::entries_opt(self.root).dom().contains(key) {
            self
        } else {
            match self.splayed_for(key).root {
                None => self,
                Some(x) => {
                    let l = clear_parent_spec(x.left);
                    let r = clear_parent_spec(x.right);
                    SplayTree {
                        root: match (l, r) {
                            (Some(ln), Some(rn)) => Some(Box::new(merge_spec(*ln, *rn))),
                            (Some(ln), None) => Some(ln),
                            (None, Some(rn)) => Some(rn),
                            (None, None) => None,
                        },
                        length: (self.length - 1) as usize,
                    }
                },
            }
        }
    }

    /// The tree after the right-only walk: the node with the greatest key is
    /// splayed to the root; the empty tree is unchanged.
    pub closed spec fn splayed_max(self) -> SplayTree<V> {
        match self.root {
            None => self,
            Some(rt) => SplayTree {
                root: match splay_max_spec(*rt) {
                    SplayStep::AtRoot(m) => Some(m),
                    SplayStep::BelowRoot(m) => Some(Box::new(rot_left_spec(*m))),
                    SplayStep::Missing(m) => Some(m),
                },
                length: self.length,
            },
        }
    }

    /// The tree after the left-only walk: the node with the least key is
    /// splayed to the root; the empty tree is unchanged.
    pub closed spec fn splayed_min(self) -> SplayTree<V> {
        match self.root {
            None => self,
            Some(rt) => SplayTree {
                root: match splay_min_spec(*rt) {
                    SplayStep::AtRoot(m) => Some(m),
                    SplayStep::BelowRoot(m) => Some(Box::new(rot_right_spec(*m))),
                    SplayStep::Missing(m) => Some(m),
                },
                length: self.length,
            },
        }
    }

    /// The tree with the root node's value overwritten in place; the shape is
    /// untouched, and the empty tree is unchanged.
    pub closed spec fn with_root_value(self, value: V) -> SplayTree<V> {
        match self.root {
            None => self,
            Some(rt) => SplayTree {
                root: Some(Box::new(Node { value, ..*rt })),
                length: self.length,
            },
        }
    }

    /// Creates an empty tree.
    pub fn new() -> (t: Self)
        ensures
            t.well_formed(),
            t@ == Map::<u64, V>::empty(),
            t.root_key() is None,
    {
        SplayTree { root: None, length: 0 }
    }

    /// The number of nodes reachable from the root.
    pub fn len(&self) -> (r: usize)
        requires
            self.well_formed(),
        ensures
            r == self@.dom().len(),
            self@.dom().finite(),
    {
        proof {
            match &self.root {
                Some(root) => {
                    lemma_entries_len(**root);
                },
                None => {
                    assert(self@.dom() =~= Set::empty());
                },
            }
        }
        self.length
    }

    /// `true` if the tree holds no nodes.
    pub fn is_empty(&self) -> (r: bool)
        requires
            self.well_formed(),
        ensures
            r == (self@ == Map::<u64, V>::empty()),
            r == (self.root_key() is None),
    {
        proof {
            match &self.root {
                Some(root) => {
                    assert(self@.dom().contains(root.key));
                },
                None => {
                },
            }
        }
        self.root.is_none()
    }

    /// The find walk: descends from the root comparing keys and, on a hit,
    /// splays the matched node to the root, finishing with the zig rotation
    /// when the walk's node comes to rest directly below the root. On a miss
    /// the tree is left untouched: the walk never splays then.
    fn splay_to_root(&mut self, key: u64) -> (found: bool)
        requires
            old(self).well_formed(),
        ensures
            final(self).well_formed(),
            final(self)@ == old(self)@,
            final(self).len_spec() == old(self).len_spec(),
            *final(self) == old(self).splayed_for(key),
            found == old(self)@.dom().contains(key),
            found ==> final(self).root_key() == Some(key),
            !found ==> *final(self) == *old(self),
    {
        let ghost t0 = *old(self);
        let root = match self.root.take() {
            Some(r) => r,
            None => {
                proof {
                    assert(*self == t0);
                }
                return false;
            },
        };
        let ghost r0 = *root;
        match splay_rec(root, key) {
            SplayStep::Missing(m) => {
                self.root = Some(m);
                proof {
                    assert(*self == t0);
                }
                false
            },
            SplayStep::AtRoot(m) => {
                self.root = Some(m);
                true
            },
            SplayStep::BelowRoot(m) => {
                // zig: the sought node's parent is the root, so a single
                // rotation toward the node finishes the splay
                let k = m.key;
                let m2 = if key < k {
                    rotate_right(m)
                } else {
                    rotate_left(m)
                };
                self.root = Some(m2);
                true
            },
        }
    }

    /// A reference to the node holding `key`, or `None` if the tree does not
    /// contain that key. A hit splays the node to the root; a miss leaves the
    /// tree untouched.
    pub fn get(&mut self, key: u64) -> (r: Option<&Node<V>>)
        requires
            old(self).well_formed(),
        ensures
            final(self).well_formed(),
            final(self)@ == old(self)@,
            *final(self) == old(self).splayed_for(key),
            old(self)@.dom().contains(key) ==> (r matches Some(node) && node.spec_key() == key
                && node.spec_value() == old(self)@[key] && final(self).root_key() == Some(key)),
            !old(self)@.dom().contains(key) ==> r is None && *final(self) == *old(self),
    {
        let found = self.splay_to_root(key);
        if found {
            match &self.root {
                Some(rt) => {
                    proof {
                        assert(rt.entries()[key] == rt.value);
                    }
                    Some(&**rt)
                },
                None => None,
            }
        } else {
            None
        }
    }

    /// Inserts a value under a key. A key already present has its value
    /// overwritten in place; otherwise a fresh node is linked where the find
    /// walk fell off the tree. Either way the touched node is splayed to the
    /// root, a reference to which is returned.
    pub fn insert(&mut self, key: u64, value: V) -> (r: &Node<V>)
        requires
            old(self).well_formed(),
            old(self)@.dom().len() < usize::MAX,
        ensures
            final(self).well_formed(),
            final(self)@ == old(self)@.insert(key, value),
            final(self).root_key() == Some(key),
            *final(self) == old(self).with_inserted(key, value),
            r.spec_key() == key,
            r.spec_value() == value,
    {
        proof {
            match &self.root {
                Some(rt) => {
                    lemma_entries_len(**rt);
                },
                None => {
                },
            }
        }
        match self.root.take() {
            None => {
                let fresh = Box::new(
                    Node { key, value, parent: None, left: None, right: None },
                );
                proof {
                    assert(fresh.entries() =~= Map::<u64, V>::empty().insert(key, value));
                    assert(old(self)@ =~= Map::<u64, V>::empty());
                }
                self.root = Some(fresh);
                self.length = 1;
            },
            Some(rt) => {
                let (step, inserted) = insert_rec(rt, key, value);
                let m = match step {
                    SplayStep::Missing(_) => unreached(),
                    SplayStep::AtRoot(m) => m,
                    SplayStep::BelowRoot(m) => {
                        let k = m.key;
                        if key < k {
                            rotate_right(m)
                        } else {
                            rotate_left(m)
                        }
                    },
                };
                self.root = Some(m);
                if inserted {
                    self.length = self.length + 1;
                }
            },
        }
        match &self.root {
            Some(rt) => {
                proof {
                    assert(rt.entries()[key] == rt.value);
                }
                &**rt
            },
            None => unreached(),
        }
    }

    /// `true` if the tree contains a value for the given key; a hit splays
    /// the matching node to the root.
    pub fn contains_key(&mut self, key: u64) -> (r: bool)
        requires
            old(self).well_formed(),
        ensures
            final(self).well_formed(),
            final(self)@ == old(self)@,
            *final(self) == old(self).splayed_for(key),
            r == old(self)@.dom().contains(key),
            r ==> final(self).root_key() == Some(key),
            !r ==> *final(self) == *old(self),
    {
        self.get(key).is_some()
    }

    /// Removes the node holding `key` and returns it with its link slots
    /// cleared, or `None` if the tree does not contain that key. The node is
    /// first splayed to the root; its two subtrees are detached by clearing
    /// their parent slots and, when both exist, merged by splaying the left
    /// subtree's maximum to become the new root.
    pub fn remove(&mut self, key: u64) -> (r: Option<Node<V>>)
        requires
            old(self).well_formed(),
        ensures
            final(self).well_formed(),
            final(self)@ == old(self)@.remove(key),
            *final(self) == old(self).with_removed(key),
            old(self)@.dom().contains(key) ==> (r matches Some(node) && node.spec_key() == key
                && node.spec_value() == old(self)@[key] && node.spec_parent() is None
                && node.spec_left() is None && node.spec_right() is None),
            !old(self)@.dom().contains(key) ==> r is None && *final(self) == *old(self),
            ((exists|a: u64| old(self)@.dom().contains(a) && a < key) && (exists|b: u64|
                old(self)@.dom().contains(b) && b > key) && old(self)@.dom().contains(key))
                ==> (final(self).root_key() matches Some(m) && m < key && old(
                self,
            )@.dom().contains(m) && (forall|x: u64|
                old(self)@.dom().contains(x) && x < key ==> x <= m)),
            ((exists|a: u64| old(self)@.dom().contains(a) && a < key) && (exists|b: u64|
                old(self)@.dom().contains(b) && b > key) && old(self)@.dom().contains(key))
                ==> (final(self).spec_root() matches Some(nr) && old(self).splayed_for(
                key,
            ).spec_root() matches Some(x) && x.spec_right() matches Some(xr)
                && nr.spec_right() matches Some(rr) && rr.spec_key() == xr.spec_key()
                && rr.spec_value() == xr.spec_value() && rr.spec_left() == xr.spec_left()
                && rr.spec_right() == xr.spec_right() && rr.spec_parent() == Some(
                nr.spec_key(),
            )),
    {
        let found = self.splay_to_root(key);
        if !found {
            proof {
                assert(old(self)@.remove(key) =~= old(self)@);
            }
            return None;
        }
        let mut x = self.root.take().unwrap();
        let ghost x0 = *x;
        proof {
            lemma_wf_children(x0);
            assert(x0.size() == 1 + Node::size_opt(x0.left) + Node::size_opt(x0.right));
        }
        proof {
            assert(old(self)@ == x0.entries());
            assert(x0.entries() == Node::entries_opt(x0.left).union_prefer_right(
                Node::entries_opt(x0.right),
            ).insert(x0.key, x0.value));
            assert(!Node::entries_opt(x0.left).dom().contains(key));
            assert(!Node::entries_opt(x0.right).dom().contains(key));
        }
        let l = x.left.take();
        let r = x.right.take();
        // detach the subtrees by clearing their parent slots
        let l = match l {
            Some(mut ln) => {
                let ghost ln0 = *ln;
                ln.parent = None;
                proof {
                    lemma_relink(*ln, ln0);
                    assert(ln.entries() == Node::entries_opt(x0.left));
                    assert(ln.size() == Node::size_opt(x0.left));
                }
                Some(ln)
            },
            None => None,
        };
        let r = match r {
            Some(mut rn) => {
                let ghost rn0 = *rn;
                rn.parent = None;
                proof {
                    lemma_relink(*rn, rn0);
                    assert(rn.entries() == Node::entries_opt(x0.right));
                    assert(rn.size() == Node::size_opt(x0.right));
                }
                Some(rn)
            },
            None => None,
        };
        self.root = match (l, r) {
            (Some(ln), Some(rn)) => Some(merge(ln, rn)),
            (Some(ln), None) => Some(ln),
            (None, Some(rn)) => Some(rn),
            (None, None) => None,
        };
        self.length = self.length - 1;
        proof {
            assert(self@ =~= old(self)@.remove(key));
        }
        Some(*x)
    }

    /// A reference to the node with the greatest key, splayed to the root, or
    /// `None` if the tree is empty.
    pub fn get_max(&mut self) -> (r: Option<&Node<V>>)
        requires
            old(self).well_formed(),
        ensures
            final(self).well_formed(),
            final(self)@ == old(self)@,
            *final(self) == old(self).splayed_max(),
            (old(self)@ == Map::<u64, V>::empty()) ==> r is None && *final(self) == *old(self),
            (old(self)@ != Map::<u64, V>::empty()) ==> (r matches Some(node) && old(
                self,
            )@.dom().contains(node.spec_key()) && (forall|x: u64|
                old(self)@.dom().contains(x) ==> x <= node.spec_key()) && final(self).root_key()
                == Some(node.spec_key()) && node.spec_value() == old(self)@[node.spec_key()]),
    {
        let root = match self.root.take() {
            Some(rt) => rt,
            None => {
                proof {
                    assert(*self == *old(self));
                    assert(self@ =~= Map::<u64, V>::empty());
                }
                return None;
            },
        };
        proof {
            assert(root.entries().dom().contains(root.key));
        }
        let m = match splay_max_rec(root) {
            SplayStep::Missing(_) => unreached(),
            SplayStep::AtRoot(m) => m,
            SplayStep::BelowRoot(m) => rotate_left(m),
        };
        self.root = Some(m);
        match &self.root {
            Some(rt) => {
                proof {
                    assert(rt.entries()[rt.key] == rt.value);
                }
                Some(&**rt)
            },
            None => unreached(),
        }
    }

    /// A reference to the node with the least key, splayed to the root, or
    /// `None` if the tree is empty.
    pub fn get_min(&mut self) -> (r: Option<&Node<V>>)
        requires
            old(self).well_formed(),
        ensures
            final(self).well_formed(),
            final(self)@ == old(self)@,
            *final(self) == old(self).splayed_min(),
            (old(self)@ == Map::<u64, V>::empty()) ==> r is None && *final(self) == *old(self),
            (old(self)@ != Map::<u64, V>::empty()) ==> (r matches Some(node) && old(
                self,
            )@.dom().contains(node.spec_key()) && (forall|x: u64|
                old(self)@.dom().contains(x) ==> x >= node.spec_key()) && final(self).root_key()
                == Some(node.spec_key()) && node.spec_value() == old(self)@[node.spec_key()]),
    {
        let root = match self.root.take() {
            Some(rt) => rt,
            None => {
                proof {
                    assert(*self == *old(self));
                    assert(self@ =~= Map::<u64, V>::empty());
                }
                return None;
            },
        };
        proof {
            assert(root.entries().dom().contains(root.key));
        }
        let m = match splay_min_rec(root) {
            SplayStep::Missing(_) => unreached(),
            SplayStep::AtRoot(m) => m,
            SplayStep::BelowRoot(m) => rotate_right(m),
        };
        self.root = Some(m);
        match &self.root {
            Some(rt) => {
                proof {
                    assert(rt.entries()[rt.key] == rt.value);
                }
                Some(&**rt)
            },
            None => unreached(),
        }
    }

    /// A reference to the root node, or `None` if the tree is empty.
    pub fn root(&self) -> (r: Option<&Node<V>>)
        requires
            self.well_formed(),
        ensures
            (r is Some) <==> (self.root_key() is Some),
            (self.root_key() is None) <==> (self@ == Map::<u64, V>::empty()),
            r matches Some(n) ==> Some(n.spec_key()) == self.root_key() && n.well_formed() && (
            n.spec_parent() is None) && n.entries() == self@ && self@.dom().contains(n.spec_key())
                && self@[n.spec_key()] == n.spec_value(),
    {
        proof {
            match &self.root {
                Some(rt) => {
                    assert(rt.entries()[rt.key] == rt.value);
                    assert(rt.entries().dom().contains(rt.key));
                },
                None => {
                },
            }
        }
        match &self.root {
            Some(r) => Some(&**r),
            None => None,
        }
    }

    /// Overwrites the value stored at the root node in place; the tree's
    /// shape is untouched.
    pub(crate) fn set_root_value(&mut self, value: V)
        requires
            old(self).well_formed(),
            old(self).root_key() is Some,
        ensures
            final(self).well_formed(),
            final(self).root_key() == old(self).root_key(),
            final(self)@ == old(self)@.insert(old(self).root_key().unwrap(), value),
            *final(self) == old(self).with_root_value(value),
    {
        let ghost t0 = *old(self);
        match &mut self.root {
            Some(rt) => {
                let ghost r0 = **rt;
                rt.value = value;
                proof {
                    lemma_reval(**rt, r0);
                }
            },
            None => {
                proof {
                    assert(false);
                }
            },
        }
    }

    /// A mutable reference to the value stored at the root node.
    fn root_value_mut(&mut self) -> (r: &mut V)
        requires
            old(self).well_formed(),
            old(self).root_key() is Some,
        ensures
            *r == old(self)@[old(self).root_key().unwrap()],
            final(self).well_formed(),
            final(self).root_key() == old(self).root_key(),
            final(self)@ == old(self)@.insert(old(self).root_key().unwrap(), *final(r)),
            *final(self) == old(self).with_root_value(*final(r)),
    {
        match &mut self.root {
            Some(rt) => {
                let ghost r0 = **rt;
                proof {
                    assert(r0.entries()[r0.key] == r0.value);
                }
                let vr = &mut rt.value;
                proof {
                    lemma_reval(Node { value: *final(vr), ..r0 }, r0);
                }
                vr
            },
            None => unreached(),
        }
    }

    /// A mutable reference to the value stored under `key`, or `None` if the
    /// tree does not contain that key. A hit splays the node to the root; a
    /// miss leaves the tree untouched.
    pub fn get_mut(&mut self, key: u64) -> (r: Option<&mut V>)
        requires
            old(self).well_formed(),
        ensures
            final(self).well_formed(),
            old(self)@.dom().contains(key) ==> (r matches Some(vr) && *vr == old(self)@[key]
                && final(self)@ == old(self)@.insert(key, *final(vr)) && final(self).root_key()
                == Some(key) && *final(self) == old(self).splayed_for(key).with_root_value(
                *final(vr),
            )),
            !old(self)@.dom().contains(key) ==> r is None && *final(self) == *old(self),
    {
        let found = self.splay_to_root(key);
        if found {
            Some(self.root_value_mut())
        } else {
            None
        }
    }

    /// A mutable reference to the value of the node with the greatest key,
    /// splayed to the root, or `None` if the tree is empty.
    pub fn get_max_mut(&mut self) -> (r: Option<&mut V>)
        requires
            old(self).well_formed(),
        ensures
            final(self).well_formed(),
            (old(self)@ == Map::<u64, V>::empty()) ==> r is None && *final(self) == *old(self),
            (old(self)@ != Map::<u64, V>::empty()) ==> (r matches Some(vr)
                && final(self).root_key() matches Some(k) && old(self)@.dom().contains(k) && (
            forall|x: u64| old(self)@.dom().contains(x) ==> x <= k) && *vr == old(self)@[k]
                && final(self)@ == old(self)@.insert(k, *final(vr)) && *final(self) == old(
                self,
            ).splayed_max().with_root_value(*final(vr))),
    {
        if self.get_max().is_none() {
            return None;
        }
        Some(self.root_value_mut())
    }

    /// A mutable reference to the value of the node with the least key,
    /// splayed to the root, or `None` if the tree is empty.
    pub fn get_min_mut(&mut self) -> (r: Option<&mut V>)
        requires
            old(self).well_formed(),
        ensures
            final(self).well_formed(),
            (old(self)@ == Map::<u64, V>::empty()) ==> r is None && *final(self) == *old(self),
            (old(self)@ != Map::<u64, V>::empty()) ==> (r matches Some(vr)
                && final(self).root_key() matches Some(k) && old(self)@.dom().contains(k) && (
            forall|x: u64| old(self)@.dom().contains(x) ==> x >= k) && *vr == old(self)@[k]
                && final(self)@ == old(self)@.insert(k, *final(vr)) && *final(self) == old(
                self,
            ).splayed_min().with_root_value(*final(vr))),
    {
        if self.get_min().is_none() {
            return None;
        }
        Some(self.root_value_mut())
    }

    /// The keyed lookup behind insert-or-update call patterns: a hit yields
    /// an occupied entry, with the node already splayed to the root, so
    /// resolving it touches only the root; a miss yields a vacant entry and
    /// leaves the tree untouched. The vacant entry carries the key and not
    /// the walk's terminal node — no handle into the tree can be stored — so
    /// its resolution re-runs the insert walk.
    pub fn entry(&mut self, key: u64) -> (e: Entry)
        requires
            old(self).well_formed(),
        ensures
            final(self).well_formed(),
            final(self)@ == old(self)@,
            *final(self) == old(self).splayed_for(key),
            e.spec_key() == key,
            e.valid(*final(self)),
            old(self)@.dom().contains(key) ==> (e matches Entry::Occupied(_))
                && final(self).root_key() == Some(key),
            !old(self)@.dom().contains(key) ==> (e matches Entry::Vacant(_)) && *final(self)
                == *old(self),
    {
        let found = self.splay_to_root(key);
        if found {
            Entry::Occupied(OccupiedEntry::new(key))
        } else {
            Entry::Vacant(VacantEntry::new(key))
        }
    }
}

/// Binary-search-tree order, as a law: every key in a well-formed node's
/// left subtree is less than the node's key, and every key in its right
/// subtree is greater. The children are themselves well-formed, so the law
/// extends to every node reachable from a well-formed root.
pub proof fn lemma_bst_order<V>(node: Node<V>)
    requires
        node.well_formed(),
    ensures
        node.spec_left() matches Some(l) ==> l.well_formed() && (forall|x: u64|
            l.keys().contains(x) ==> x < node.spec_key()),
        node.spec_right() matches Some(r) ==> r.well_formed() && (forall|x: u64|
            r.keys().contains(x) ==> x > node.spec_key()),
{
    lemma_wf_children(node);
}

/// Back-reference consistency, as a law: each child of a well-formed node
/// carries the node's own key in its parent slot, so a non-root node's
/// back-reference always agrees with the owning link that reaches it — and a
/// left child's key lies below the parent's, a right child's above, which is
/// what `is_left` and `is_right` read off the back-reference.
pub proof fn lemma_back_reference<V>(node: Node<V>)
    requires
        node.well_formed(),
    ensures
        node.spec_left() matches Some(l) ==> l.spec_parent() == Some(node.spec_key())
            && l.spec_key() < node.spec_key(),
        node.spec_right() matches Some(r) ==> r.spec_parent() == Some(node.spec_key())
            && r.spec_key() > node.spec_key(),
{
    lemma_wf_children(node);
    match node.left {
        Some(l) => {
            assert(l.entries().dom().contains(l.key));
        },
        None => {
        },
    }
    match node.right {
        Some(r) => {
            assert(r.entries().dom().contains(r.key));
        },
        None => {
        },
    }
}

/// A well-formed tree holds finitely many bindings: the view's domain is
/// finite and its cardinality is the node count that `len` reports, so a
/// fresh insertion grows `len` by exactly one and a removal shrinks it.
pub proof fn lemma_view_finite<V>(tree: SplayTree<V>)
    requires
        tree.well_formed(),
    ensures
        tree@.dom().finite(),
        tree@.dom().len() == tree.len_spec(),
{
    match tree.root {
        Some(rt) => {
            lemma_entries_len(*rt);
        },
        None => {
            assert(tree@.dom() =~= Set::empty());
        },
    }
}

/// Rotation shape, as a law: when the sought key sits directly below the
/// root as its left child (the zig case), the find walk performs exactly one
/// right rotation at the root. The node takes the root's place and keeps its
/// left subtree; the demoted root becomes its right child, keeping its own
/// right subtree and holding the node's former right subtree — back-reference
/// redirected — as its new left child.
pub proof fn lemma_zig_left_shape<V>(tree: SplayTree<V>, key: u64)
    requires
        tree.well_formed(),
        tree.spec_root() matches Some(rt) && rt.spec_left() matches Some(l) && l.spec_key()
            == key,
    ensures
        tree.splayed_for(key).spec_root() matches Some(nr) && {
            let rt = tree.spec_root().unwrap();
            let l = rt.spec_left().unwrap();
            &&& nr.spec_key() == key
            &&& nr.spec_value() == l.spec_value()
            &&& nr.spec_parent() == rt.spec_parent()
            &&& nr.spec_left() == l.spec_left()
            &&& (nr.spec_right() matches Some(d) && d.spec_key() == rt.spec_key()
                && d.spec_value() == rt.spec_value() && d.spec_right() == rt.spec_right()
                && Node::entries_opt(d.spec_left()) == Node::entries_opt(l.spec_right()))
        },
{
    let rt = tree.spec_root().unwrap();
    let l = rt.spec_left().unwrap();
    lemma_wf_children(*rt);
    assert(l.entries().dom().contains(key));
    assert(key < rt.key);
    assert(splay_spec(*l, key) == SplayStep::AtRoot(Box::new(*l)));
    assert(Node { left: Some(Box::new(*l)), ..*rt } == *rt);
    assert(splay_spec(*rt, key) == SplayStep::BelowRoot(Box::new(*rt)));
    assert(tree.splayed_for(key).spec_root() == Some(Box::new(rot_right_spec(*rt))));
    match l.right {
        Some(b) => {
            lemma_relink(Node { parent: Some(rt.key), ..*b }, *b);
        },
        None => {
        },
    }
}

/// The mirror rotation-shape law: a sought key directly below the root as
/// its right child (the zig case on the other side) costs exactly one left
/// rotation at the root.
pub proof fn lemma_zig_right_shape<V>(tree: SplayTree<V>, key: u64)
    requires
        tree.well_formed(),
        tree.spec_root() matches Some(rt) && rt.spec_right() matches Some(r) && r.spec_key()
            == key,
    ensures
        tree.splayed_for(key).spec_root() matches Some(nr) && {
            let rt = tree.spec_root().unwrap();
            let r = rt.spec_right().unwrap();
            &&& nr.spec_key() == key
            &&& nr.spec_value() == r.spec_value()
            &&& nr.spec_parent() == rt.spec_parent()
            &&& nr.spec_right() == r.spec_right()
            &&& (nr.spec_left() matches Some(d) && d.spec_key() == rt.spec_key()
                && d.spec_value() == rt.spec_value() && d.spec_left() == rt.spec_left()
                && Node::entries_opt(d.spec_right()) == Node::entries_opt(r.spec_left()))
        },
{
    let rt = tree.spec_root().unwrap();
    let r = rt.spec_right().unwrap();
    lemma_wf_children(*rt);
    assert(r.entries().dom().contains(key));
    assert(key > rt.key);
    assert(splay_spec(*r, key) == SplayStep::AtRoot(Box::new(*r)));
    assert(Node { right: Some(Box::new(*r)), ..*rt } == *rt);
    assert(splay_spec(*rt, key) == SplayStep::BelowRoot(Box::new(*rt)));
    assert(tree.splayed_for(key).spec_root() == Some(Box::new(rot_left_spec(*rt))));
    match r.left {
        Some(b) => {
            lemma_relink(Node { parent: Some(rt.key), ..*b }, *b);
        },
        None => {
        },
    }
}

/// Round-trip law, over the map view that the tree operations ensure:
/// `insert(k, v)` makes the view map `k` to `v`, so a following `get(k)`
/// yields `v`; `remove(k)` erases `k` from the view, so a following `get(k)`
/// yields nothing.
pub proof fn lemma_round_trip<V>(m: Map<u64, V>, k: u64, v: V)
    ensures
        m.insert(k, v).dom().contains(k),
        m.insert(k, v)[k] == v,
        !m.remove(k).dom().contains(k),
{
}

/// Overwrite idempotence, over the map view: inserting twice under one key
/// keeps only the second value and adds no second binding, so the tree's
/// length is unchanged by the overwrite.
pub proof fn lemma_overwrite<V>(m: Map<u64, V>, k: u64, v1: V, v2: V)
    ensures
        m.insert(k, v1).insert(k, v2) == m.insert(k, v2),
        m.insert(k, v1).insert(k, v2).dom() == m.insert(k, v1).dom(),
        m.insert(k, v1).insert(k, v2)[k] == v2,
{
    assert(m.insert(k, v1).insert(k, v2) =~= m.insert(k, v2));
    assert(m.insert(k, v1).insert(k, v2).dom() =~= m.insert(k, v1).dom());
}

} // verus!
