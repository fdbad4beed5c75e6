//! The transform store and hierarchy manager.
//!
//! `TransformMap` owns every transform record, keyed by process-unique
//! identifiers.  It keeps the parent/children relation bidirectionally
//! consistent, refuses edits that would close a cycle, eagerly marks a
//! subtree stale whenever a node's effective world pose changes, and resolves
//! cached world matrices lazily.

use vstd::prelude::*;
use crate::ident;
use crate::math;
use crate::math::Scalar;
use crate::object_transform::ObjectTransform;
use crate::object_transform::children_distinct;
use crate::object_transform::initial_orientation;
use crate::object_transform::spec_depth_vector;
use crate::object_transform::spec_horizontal_vector;
use crate::object_transform::spec_local_matrix;
use crate::object_transform::spec_vertical_vector;
use crate::object_transform::same_cache;
use crate::object_transform::same_links;
use crate::object_transform::same_pose;

verus! {

/// The ways a hierarchy edit can be refused.  Rejection is atomic: a refused
/// edit leaves the store unchanged.
#[derive(Clone, Copy, Debug, PartialEq, Eq, Structural)]
pub enum TransformError {
    /// An identifier is not registered in the store.
    NotFound,
    /// A node was asked to become its own parent.
    SelfParent,
    /// The requested parent is a descendant of the node being moved.
    CycleDetected,
}

/// The store: sole owner of all transform records.
pub struct TransformMap {
    transforms: Vec<ObjectTransform>,
}

impl Default for TransformMap {
    /// The empty store.
    fn default() -> (r: TransformMap)
        ensures
            r.wf(),
            r.s().len() == 0,
    {
        TransformMap::new()
    }
}

impl TransformMap {
    /// The records, in insertion order.
    pub closed spec fn s(self) -> Seq<ObjectTransform> {
        self.transforms@
    }

    /// The identifier is registered in the store.
    pub closed spec fn has(self, id: u128) -> bool {
        exists|i: int| 0 <= i < self.s().len() && (#[trigger] self.s()[i]).spec_id() == id
    }

    /// The position of the record registered under the identifier.
    pub closed spec fn iof(self, id: u128) -> int {
        choose|i: int| 0 <= i < self.s().len() && (#[trigger] self.s()[i]).spec_id() == id
    }

    /// The record registered under the identifier.
    pub closed spec fn node(self, id: u128) -> ObjectTransform {
        self.s()[self.iof(id)]
    }

    /// No two records share an identifier.
    pub closed spec fn ids_distinct(self) -> bool {
        forall|i: int, j: int|
            0 <= i < j < self.s().len() ==> (#[trigger] self.s()[i]).spec_id() != (
            #[trigger] self.s()[j]).spec_id()
    }

    /// The node's own links are consistent with the rest of the store: its
    /// parent, if any, is registered, differs from the node, and lists the
    /// node among its children; every listed child is registered, points back
    /// here, and is listed once.
    pub closed spec fn links_ok(self, x: u128) -> bool {
        &&& match self.node(x).spec_parent() {
            Option::Some(p) => self.has(p) && p != x && self.node(p).spec_children().contains(x),
            Option::None => true,
        }
        &&& forall|c: u128|
            #[trigger] self.node(x).spec_children().contains(c) ==> self.has(c) && self.node(
                c,
            ).spec_parent() == Option::Some(x)
        &&& children_distinct(self.node(x).spec_children())
    }

    /// Bidirectional consistency of the whole parent/children relation.
    pub closed spec fn links_closed(self) -> bool {
        forall|x: u128| #[trigger] self.has(x) ==> self.links_ok(x)
    }

    /// Staleness has been propagated eagerly: a node whose parent is dirty is
    /// itself dirty, so dirtiness is closed downward over whole subtrees.
    pub closed spec fn dirty_propagated(self) -> bool {
        forall|x: u128| #[trigger] self.has(x) ==> match self.node(x).spec_parent() {
            Option::Some(p) => self.node(p).spec_dirty() ==> self.node(x).spec_dirty(),
            Option::None => true,
        }
    }

    /// The parent relation is a forest: every ancestor chain leaves the
    /// store after finitely many steps, so no node is its own ancestor.
    pub closed spec fn acyclic(self) -> bool {
        forall|x: u128|
            #[trigger] self.has(x) ==> exists|k: nat| self.anc(x, k) == Option::<u128>::None
    }

    /// A clean node's alternate cache is the transpose of its world cache:
    /// the two caches always agree while they are valid.
    pub closed spec fn caches_ok(self) -> bool {
        forall|x: u128|
            #[trigger] self.has(x) ==> (!self.node(x).spec_dirty() ==> self.node(
                x,
            ).spec_gl_world_matrix() == math::mat_transpose_of(self.node(x).spec_world_matrix()))
    }

    /// The store's invariant.
    pub closed spec fn wf(self) -> bool {
        self.ids_distinct() && self.links_closed() && self.dirty_propagated() && self.acyclic()
            && self.caches_ok()
    }

    /// The k-th ancestor of a node: `Some(x)` itself for `k == 0`, then one
    /// parent step at a time; `None` once the chain has left the forest.
    pub closed spec fn anc(self, x: u128, k: nat) -> Option<u128>
        decreases k,
    {
        if !self.has(x) {
            Option::None
        } else if k == 0 {
            Option::Some(x)
        } else {
            match self.node(x).spec_parent() {
                Option::None => Option::None,
                Option::Some(p) => self.anc(p, (k - 1) as nat),
            }
        }
    }

    /// `root` lies on `x`'s ancestor chain (possibly `x` itself): exactly the
    /// nodes whose effective world pose depends on `root`'s subtree edits.
    pub closed spec fn in_subtree(self, x: u128, root: u128) -> bool {
        exists|k: nat| self.anc(x, k) == Option::Some(root)
    }

    /// The node's caches hold a freshly composed result: its local matrix
    /// times its parent's cached world matrix (the identity at a root), with
    /// the transpose mirrored in the alternate cache.
    pub open spec fn resolved_against_parent(self, x: u128) -> bool {
        &&& self.node(x).spec_world_matrix() == math::mat_mul_of(
            spec_local_matrix(self.node(x)),
            match self.node(x).spec_parent() {
                Option::Some(p) => self.node(p).spec_world_matrix(),
                Option::None => math::mat_identity_of(),
            },
        )
        &&& self.node(x).spec_gl_world_matrix() == math::mat_transpose_of(
            self.node(x).spec_world_matrix(),
        )
    }

    /// A registered identifier names a record in range that carries it.
    proof fn lemma_has_node(self, x: u128)
        requires
            self.has(x),
        ensures
            0 <= self.iof(x) < self.s().len(),
            self.s()[self.iof(x)] == self.node(x),
            self.node(x).spec_id() == x,
    {
        assert(exists|i: int|
            0 <= i < self.s().len() && (#[trigger] self.s()[i]).spec_id() == x);
    }

    /// Under distinct identifiers, the record at a position is exactly the
    /// one registered under its identifier.
    proof fn lemma_at_index(self, i: int)
        requires
            self.ids_distinct(),
            0 <= i < self.s().len(),
        ensures
            self.has(self.s()[i].spec_id()),
            self.iof(self.s()[i].spec_id()) == i,
            self.node(self.s()[i].spec_id()) == self.s()[i],
    {
        let x = self.s()[i].spec_id();
        assert(self.has(x));
        self.lemma_has_node(x);
        if self.iof(x) != i {
            assert(false);
        }
    }

    /// Replacing one record by another carrying the same identifier keeps
    /// the registry intact and changes exactly that node.
    proof fn lemma_update(m0: TransformMap, m1: TransformMap, i: int, t: ObjectTransform)
        requires
            m0.ids_distinct(),
            0 <= i < m0.s().len(),
            t.spec_id() == m0.s()[i].spec_id(),
            m1.s() == m0.s().update(i, t),
        ensures
            m1.ids_distinct(),
            forall|x: u128| #[trigger] m1.has(x) <==> m0.has(x),
            forall|x: u128| #[trigger] m0.has(x) ==> m1.iof(x) == m0.iof(x),
            m1.node(t.spec_id()) == t,
            forall|x: u128|
                #[trigger] m0.has(x) && x != t.spec_id() ==> m1.node(x) == m0.node(x),
            m1.s().len() == m0.s().len(),
    {
        assert forall|x: u128| #[trigger] m1.has(x) <==> m0.has(x) by {
            if m0.has(x) {
                m0.lemma_has_node(x);
                let w = m0.iof(x);
                assert(m1.s()[w].spec_id() == x);
            }
            if m1.has(x) {
                m1.lemma_has_node(x);
                let w = m1.iof(x);
                assert(m0.s()[w].spec_id() == x);
            }
        }
        assert forall|x: u128| #[trigger] m0.has(x) implies m1.iof(x) == m0.iof(x) by {
            m0.lemma_has_node(x);
            m1.lemma_has_node(x);
            let a = m0.iof(x);
            let b = m1.iof(x);
            assert(m0.s()[b].spec_id() == x);
            if a != b {
                assert(false);
            }
        }
        m0.lemma_at_index(i);
        assert(m1.node(t.spec_id()) == t) by {
            let x = t.spec_id();
            assert(m1.has(x)) by {
                assert(m1.s()[i].spec_id() == x);
            }
            m1.lemma_has_node(x);
            assert(m1.iof(x) == m0.iof(x));
            assert(m0.iof(x) == i);
        }
    }

    /// Appending a record under a fresh identifier keeps the registry intact
    /// and registers exactly that record.
    proof fn lemma_push(m0: TransformMap, m1: TransformMap, t: ObjectTransform)
        requires
            m0.ids_distinct(),
            !m0.has(t.spec_id()),
            m1.s() == m0.s().push(t),
        ensures
            m1.ids_distinct(),
            forall|x: u128| #[trigger] m1.has(x) <==> (m0.has(x) || x == t.spec_id()),
            forall|x: u128|
                #[trigger] m0.has(x) ==> m1.iof(x) == m0.iof(x) && m1.node(x) == m0.node(x),
            m1.has(t.spec_id()),
            m1.node(t.spec_id()) == t,
            m1.s().len() == m0.s().len() + 1,
    {
        let n: int = m0.s().len() as int;
        assert(m1.s()[n] == t);
        assert forall|i: int| 0 <= i < n implies (#[trigger] m1.s()[i]) == m0.s()[i] by {}
        assert(m1.ids_distinct()) by {
            assert forall|i: int, j: int|
                0 <= i < j < m1.s().len() implies (#[trigger] m1.s()[i]).spec_id() != (
            #[trigger] m1.s()[j]).spec_id() by {
                if j < n {
                } else {
                    assert(m1.s()[j] == t);
                    if m1.s()[i].spec_id() == t.spec_id() {
                        assert(m0.s()[i].spec_id() == t.spec_id());
                        assert(m0.has(t.spec_id()));
                    }
                }
            }
        }
        assert forall|x: u128| #[trigger] m1.has(x) <==> (m0.has(x) || x == t.spec_id()) by {
            if m1.has(x) {
                m1.lemma_has_node(x);
                let w = m1.iof(x);
                if w < n {
                    assert(m0.s()[w].spec_id() == x);
                } else {
                    assert(x == t.spec_id());
                }
            }
            if m0.has(x) {
                m0.lemma_has_node(x);
                let w = m0.iof(x);
                assert(m1.s()[w].spec_id() == x);
            }
            if x == t.spec_id() {
                assert(m1.s()[n].spec_id() == x);
            }
        }
        assert forall|x: u128| #[trigger] m0.has(x) implies m1.iof(x) == m0.iof(x) && m1.node(x)
            == m0.node(x) by {
            m0.lemma_has_node(x);
            assert(m1.has(x));
            m1.lemma_has_node(x);
            let a = m0.iof(x);
            let b = m1.iof(x);
            if b == n {
                assert(x == t.spec_id());
                assert(false);
            }
            assert(m0.s()[b].spec_id() == x);
            if a != b {
                assert(false);
            }
        }
        assert(m1.has(t.spec_id())) by {
            assert(m1.s()[n].spec_id() == t.spec_id());
        }
        m1.lemma_at_index(n);
    }

    /// Chains compose: walking `a + b` steps is walking `a` steps, then `b`
    /// more from wherever that landed.
    proof fn lemma_anc_add(self, x: u128, a: nat, b: nat)
        ensures
            self.anc(x, a + b) == (match self.anc(x, a) {
                Option::None => Option::<u128>::None,
                Option::Some(y) => self.anc(y, b),
            }),
        decreases a,
    {
        if !self.has(x) {
        } else if a == 0 {
        } else {
            match self.node(x).spec_parent() {
                Option::None => {},
                Option::Some(p) => {
                    self.lemma_anc_add(p, (a - 1) as nat, b);
                    assert(self.anc(x, a + b) == self.anc(p, (a - 1) as nat + b));
                },
            }
        }
    }

    /// Every entry of an ancestor chain is registered.
    proof fn lemma_anc_has(self, x: u128, k: nat)
        ensures
            self.anc(x, k) matches Option::Some(y) ==> self.has(y),
        decreases k,
    {
        if self.has(x) && k > 0 {
            match self.node(x).spec_parent() {
                Option::None => {},
                Option::Some(p) => {
                    self.lemma_anc_has(p, (k - 1) as nat);
                },
            }
        }
    }

    /// One parent step preserves chain equality between two stores that
    /// register at least the same nodes with the same parent links.
    proof fn lemma_anc_preserved(m0: TransformMap, m1: TransformMap, x: u128, k: nat)
        requires
            m0.links_closed(),
            forall|y: u128|
                #[trigger] m0.has(y) ==> m1.has(y) && m1.node(y).spec_parent() == m0.node(
                    y,
                ).spec_parent(),
            m0.has(x),
        ensures
            m1.anc(x, k) == m0.anc(x, k),
        decreases k,
    {
        if k > 0 {
            match m0.node(x).spec_parent() {
                Option::None => {},
                Option::Some(p) => {
                    assert(m0.links_ok(x));
                    TransformMap::lemma_anc_preserved(m0, m1, p, (k - 1) as nat);
                },
            }
        }
    }

    /// A dirty ancestor means a dirty descendant, once staleness has been
    /// propagated.
    proof fn lemma_dirty_down(self, y: u128, x: u128, k: nat)
        requires
            self.dirty_propagated(),
            self.anc(y, k) == Option::<u128>::Some(x),
            self.node(x).spec_dirty(),
        ensures
            self.node(y).spec_dirty(),
        decreases k,
    {
        if k == 0 {
        } else {
            match self.node(y).spec_parent() {
                Option::None => {},
                Option::Some(p) => {
                    self.lemma_dirty_down(p, x, (k - 1) as nat);
                },
            }
        }
    }

    /// The chain that reaches an ancestor passes, one step below it, through
    /// a node whose parent link names that ancestor.
    proof fn lemma_chain_penultimate(self, x: u128, target: u128, k: nat)
        requires
            self.anc(x, k) == Option::<u128>::Some(target),
            k >= 1,
        ensures
            exists|y: u128|
                (#[trigger] self.node(y)).spec_parent() == Option::Some(target) && self.has(y)
                    && self.anc(x, (k - 1) as nat) == Option::Some(y),
        decreases k,
    {
        if !self.has(x) {
            assert(false);
        } else {
            match self.node(x).spec_parent() {
                Option::None => {
                    assert(false);
                },
                Option::Some(p) => {
                    if k == 1 {
                        assert(self.anc(p, 0nat) == Option::<u128>::Some(target));
                        assert(p == target);
                        assert((self.node(x)).spec_parent() == Option::Some(target) && self.has(
                            x,
                        ) && self.anc(x, 0nat) == Option::Some(x));
                    } else {
                        self.lemma_chain_penultimate(p, target, (k - 1) as nat);
                        let y = choose|y: u128|
                            (#[trigger] self.node(y)).spec_parent() == Option::Some(target)
                                && self.has(y) && self.anc(p, (k - 2) as nat) == Option::Some(y);
                        assert(self.anc(x, (k - 1) as nat) == self.anc(p, (k - 2) as nat));
                        assert((self.node(y)).spec_parent() == Option::Some(target) && self.has(
                            y,
                        ) && self.anc(x, (k - 1) as nat) == Option::Some(y));
                    }
                },
            }
        }
    }

    /// A chain that hits a node at all hits it a first time.
    proof fn lemma_first_hit(self, x: u128, n: u128, k: nat)
        requires
            self.anc(x, k) == Option::<u128>::Some(n),
        ensures
            exists|m: nat|
                m <= k && #[trigger] self.anc(x, m) == Option::Some(n) && (forall|j: nat|
                    j < m ==> self.anc(x, j) != Option::<u128>::Some(n)),
        decreases k,
    {
        if forall|j: nat| j < k ==> self.anc(x, j) != Option::<u128>::Some(n) {
            assert(self.anc(x, k) == Option::Some(n) && (forall|j: nat|
                j < k ==> self.anc(x, j) != Option::<u128>::Some(n)));
        } else {
            let j = choose|j: nat| j < k && self.anc(x, j) == Option::<u128>::Some(n);
            self.lemma_first_hit(x, n, j);
        }
    }

    /// A chain that avoids the one node whose parent link differs reads the
    /// same in both stores.
    proof fn lemma_anc_same_avoiding(m0: TransformMap, m1: TransformMap, n: u128, y: u128, k: nat)
        requires
            forall|z: u128| #[trigger] m0.has(z) <==> m1.has(z),
            forall|z: u128|
                m0.has(z) && z != n ==> #[trigger] m1.node(z).spec_parent() == m0.node(
                    z,
                ).spec_parent(),
            m0.has(y),
            forall|j: nat| j <= k ==> #[trigger] m0.anc(y, j) != Option::<u128>::Some(n),
        ensures
            m1.anc(y, k) == m0.anc(y, k),
        decreases k,
    {
        assert(m0.anc(y, 0nat) == Option::<u128>::Some(y));
        assert(y != n);
        if k > 0 {
            match m0.node(y).spec_parent() {
                Option::None => {},
                Option::Some(p) => {
                    if m0.has(p) {
                        assert forall|j: nat| j <= (k - 1) as nat implies #[trigger] m0.anc(
                            p,
                            j,
                        ) != Option::<u128>::Some(n) by {
                            assert(m0.anc(y, j + 1) == m0.anc(p, j));
                            assert(j + 1 <= k);
                        }
                        TransformMap::lemma_anc_same_avoiding(m0, m1, n, p, (k - 1) as nat);
                    } else {
                        assert(m0.anc(y, k) == Option::<u128>::None) by {
                            assert(m0.anc(p, (k - 1) as nat) == Option::<u128>::None);
                        }
                        assert(m1.anc(y, k) == Option::<u128>::None) by {
                            assert(!m1.has(p));
                            assert(m1.anc(p, (k - 1) as nat) == Option::<u128>::None);
                        }
                    }
                },
            }
        }
    }

    /// Walking a whole cycle any number of times comes back to the start.
    proof fn lemma_cycle_pump(self, x: u128, c: nat, m: nat)
        requires
            self.has(x),
            self.anc(x, c) == Option::<u128>::Some(x),
        ensures
            self.anc(x, m * c) == Option::<u128>::Some(x),
        decreases m,
    {
        if m == 0 {
            assert(m * c == 0) by (nonlinear_arith)
                requires
                    m == 0,
            ;
            assert(self.anc(x, 0nat) == Option::<u128>::Some(x));
        } else {
            self.lemma_cycle_pump(x, c, (m - 1) as nat);
            self.lemma_anc_add(x, ((m - 1) as nat) * c, c);
            assert(m * c == ((m - 1) as nat) * c + c) by (nonlinear_arith)
                requires
                    m >= 1,
            ;
        }
    }

    /// A node on a cycle has an ancestor chain that never leaves the store,
    /// so a forest admits no cycle.
    proof fn lemma_cycle_no_escape(self, x: u128, c: nat)
        requires
            self.has(x),
            self.anc(x, c) == Option::<u128>::Some(x),
            c >= 1,
        ensures
            forall|k: nat| self.anc(x, k) != Option::<u128>::None,
    {
        assert forall|k: nat| self.anc(x, k) != Option::<u128>::None by {
            if self.anc(x, k) == Option::<u128>::None {
                self.lemma_cycle_pump(x, c, k);
                assert(k * c >= k) by (nonlinear_arith)
                    requires
                        c >= 1,
                ;
                self.lemma_anc_add(x, k, (k * c - k) as nat);
            }
        }
    }

    /// Produces an identifier no record carries: one random draw, then, if
    /// that collides, a bounded deterministic search.  Each colliding probe
    /// pins down a distinct record, so the search runs out of records to
    /// collide with.
    fn fresh_id(&self) -> (r: u128)
        requires
            self.ids_distinct(),
        ensures
            !self.has(r),
    {
        let cand = ident::random_id();
        if !self.contains(cand) {
            return cand;
        }
        let n = self.transforms.len();
        let mut v: u128 = 0;
        let ghost mut hit: Set<int> = Set::empty();
        loop
            invariant
                self.ids_distinct(),
                n == self.s().len(),
                hit.finite(),
                hit.subset_of(vstd::set_lib::set_int_range(0, self.s().len() as int)),
                hit.len() <= self.s().len(),
                v as nat == hit.len(),
                forall|i: int|
                    #[trigger] hit.contains(i) ==> exists|u: u128|
                        u < v && self.has(u) && self.iof(u) == i,
            decreases self.s().len() - hit.len(),
        {
            if !self.contains(v) {
                return v;
            }
            proof {
                self.lemma_has_node(v);
                let w = self.iof(v);
                if hit.contains(w) {
                    let u = choose|u: u128| u < v && self.has(u) && self.iof(u) == w;
                    self.lemma_has_node(u);
                    assert(self.node(u) == self.node(v));
                    assert(false);
                }
                vstd::set_lib::lemma_int_range(0, self.s().len() as int);
                assert(hit.insert(w).subset_of(
                    vstd::set_lib::set_int_range(0, self.s().len() as int),
                ));
                vstd::set_lib::lemma_len_subset(
                    hit.insert(w),
                    vstd::set_lib::set_int_range(0, self.s().len() as int),
                );
                hit = hit.insert(w);
            }
            v = v + 1;
        }
    }

    /// Creates an empty store.
    pub fn new() -> (r: TransformMap)
        ensures
            r.wf(),
            r.s().len() == 0,
            forall|x: u128| !(#[trigger] r.has(x)),
    {
        TransformMap { transforms: Vec::new() }
    }

    /// The number of transforms the store owns.
    pub fn transform_count(&self) -> (r: usize)
        ensures
            r == self.s().len(),
    {
        self.transforms.len()
    }

    /// Whether an identifier is registered.
    pub fn contains(&self, id: u128) -> (r: bool)
        ensures
            r == self.has(id),
    {
        let n = self.transforms.len();
        let mut i: usize = 0;
        while i < n
            invariant
                n == self.s().len(),
                i <= n,
                forall|j: int| 0 <= j < i ==> (#[trigger] self.s()[j]).spec_id() != id,
            decreases n - i,
        {
            if self.transforms[i].id() == id {
                assert(self.s()[i as int].spec_id() == id);
                return true;
            }
            i += 1;
        }
        false
    }

    /// Finds the position of a registered identifier.
    fn index_of(&self, id: u128) -> (r: usize)
        requires
            self.ids_distinct(),
            self.has(id),
        ensures
            0 <= r < self.s().len(),
            self.s()[r as int].spec_id() == id,
            r as int == self.iof(id),
    {
        let n = self.transforms.len();
        let mut i: usize = 0;
        while i < n
            invariant
                n == self.s().len(),
                i <= n,
                self.ids_distinct(),
                self.has(id),
                forall|j: int| 0 <= j < i ==> (#[trigger] self.s()[j]).spec_id() != id,
            decreases n - i,
        {
            if self.transforms[i].id() == id {
                proof {
                    self.lemma_at_index(i as int);
                }
                return i;
            }
            i += 1;
        }
        proof {
            self.lemma_has_node(id);
            assert(false);
        }
        0
    }

    /// Walks the ancestor chain of `start` upward and reports whether it
    /// passes through `target`.  The chain is finite by the forest invariant,
    /// which also bounds the walk.
    fn is_ancestor_or_self(&self, start: u128, target: u128) -> (r: bool)
        requires
            self.ids_distinct(),
            self.links_closed(),
            self.acyclic(),
            self.has(start),
        ensures
            r == self.in_subtree(start, target),
    {
        let mut cur = start;
        let ghost k0 = choose|k: nat| self.anc(start, k) == Option::<u128>::None;
        let ghost mut j: nat = 0;
        proof {
            assert(self.anc(start, 0nat) == Option::<u128>::Some(start));
        }
        loop
            invariant
                self.ids_distinct(),
                self.links_closed(),
                self.has(start),
                self.has(cur),
                self.anc(start, j) == Option::<u128>::Some(cur),
                forall|i: nat| i < j ==> self.anc(start, i) != Option::<u128>::Some(target),
                self.anc(start, k0) == Option::<u128>::None,
                j < k0,
            decreases k0 - j,
        {
            if cur == target {
                proof {
                    assert(self.anc(start, j) == Option::Some(target));
                }
                return true;
            }
            let ci = self.index_of(cur);
            let par = self.transforms[ci].parent();
            proof {
                self.lemma_has_node(cur);
                assert(self.s()[self.iof(cur)] == self.node(cur));
            }
            match par {
                Option::None => {
                    proof {
                        assert forall|i: nat|
                            self.anc(start, i) != Option::<u128>::Some(target) by {
                            if i <= j {
                                assert(self.anc(start, j) == Option::Some(cur));
                            } else {
                                self.lemma_anc_add(start, j, (i - j) as nat);
                                assert(self.anc(cur, (i - j) as nat) == Option::<u128>::None);
                            }
                        }
                    }
                    return false;
                },
                Option::Some(p) => {
                    proof {
                        assert(self.links_ok(cur));
                        assert(self.has(p));
                        self.lemma_anc_add(start, j, 1nat);
                        assert(self.anc(p, 0nat) == Option::<u128>::Some(p));
                        assert(self.anc(cur, 1nat) == Option::<u128>::Some(p));
                        assert(self.anc(start, (j + 1) as nat) == Option::<u128>::Some(p));
                        if j + 1 >= k0 {
                            self.lemma_anc_add(start, k0, (j + 1 - k0) as nat);
                            assert(false);
                        }
                        j = j + 1;
                    }
                    cur = p;
                },
            }
        }
    }

    /// Marks the node and its entire subtree stale: after the call a node is
    /// dirty exactly if it already was or the given node lies on its ancestor
    /// chain.  Nothing else about any record changes.
    pub fn set_dirty(&mut self, id: u128)
        requires
            old(self).wf(),
            old(self).has(id),
        ensures
            final(self).wf(),
            final(self).s().len() == old(self).s().len(),
            forall|x: u128| #[trigger] final(self).has(x) <==> old(self).has(x),
            forall|x: u128|
                #[trigger] old(self).has(x) ==> same_links(final(self).node(x), old(self).node(x))
                    && same_pose(final(self).node(x), old(self).node(x)) && same_cache(
                    final(self).node(x),
                    old(self).node(x),
                ),
            forall|x: u128|
                #[trigger] old(self).has(x) ==> final(self).node(x).spec_dirty() == (old(
                    self,
                ).node(x).spec_dirty() || old(self).in_subtree(x, id)),
    {
        let ghost m0 = *self;
        let n = self.transforms.len();
        let mut marks: Vec<bool> = Vec::new();
        let mut i: usize = 0;
        while i < n
            invariant
                self.wf(),
                self.has(id),
                n == self.s().len(),
                i <= n,
                marks@.len() == i,
                forall|j: int|
                    0 <= j < i ==> #[trigger] marks@[j] == self.in_subtree(
                        self.s()[j].spec_id(),
                        id,
                    ),
            decreases n - i,
        {
            let x = self.transforms[i].id();
            let b = self.is_ancestor_or_self(x, id);
            marks.push(b);
            i += 1;
        }
        let mut i: usize = 0;
        while i < n
            invariant
                m0.wf(),
                m0.has(id),
                n == self.s().len(),
                i <= n,
                marks@.len() == n,
                forall|j: int|
                    0 <= j < n ==> #[trigger] marks@[j] == m0.in_subtree(m0.s()[j].spec_id(), id),
                self.s().len() == m0.s().len(),
                self.ids_distinct(),
                forall|x: u128| #[trigger] self.has(x) <==> m0.has(x),
                forall|x: u128| #[trigger] m0.has(x) ==> self.iof(x) == m0.iof(x),
                forall|x: u128|
                    #[trigger] m0.has(x) ==> same_links(self.node(x), m0.node(x)) && same_pose(
                        self.node(x),
                        m0.node(x),
                    ) && same_cache(self.node(x), m0.node(x)),
                forall|j: int|
                    0 <= j < i ==> (#[trigger] self.s()[j]).spec_dirty() == (m0.s()[j].spec_dirty()
                        || m0.in_subtree(m0.s()[j].spec_id(), id)),
                forall|j: int| i <= j < n ==> #[trigger] self.s()[j] == m0.s()[j],
            decreases n - i,
        {
            let ghost x = m0.s()[i as int].spec_id();
            proof {
                m0.lemma_at_index(i as int);
            }
            if marks[i] {
                let ghost prev = *self;
                let t = &mut self.transforms[i];
                t.set_dirty();
                proof {
                    let tn = self.s()[i as int];
                    assert(self.s() == prev.s().update(i as int, tn));
                    TransformMap::lemma_update(prev, *self, i as int, tn);
                    assert(tn.spec_id() == x);
                    assert(self.node(x) == tn);
                    assert forall|y: u128| #[trigger] m0.has(y) implies self.iof(y) == m0.iof(
                        y,
                    ) && same_links(self.node(y), m0.node(y)) && same_pose(
                        self.node(y),
                        m0.node(y),
                    ) && same_cache(self.node(y), m0.node(y)) by {
                        assert(prev.has(y));
                        if y != x {
                            assert(self.node(y) == prev.node(y));
                        }
                    }
                }
            } else {
                proof {
                    assert(self.s()[i as int] == m0.s()[i as int]);
                    assert(!m0.in_subtree(x, id));
                }
            }
            i += 1;
        }
        proof {
            assert forall|x: u128| #[trigger] m0.has(x) implies self.node(x).spec_dirty() == (
            m0.node(x).spec_dirty() || m0.in_subtree(x, id)) by {
                m0.lemma_has_node(x);
                let w = m0.iof(x);
                assert(self.s()[w].spec_dirty() == (m0.s()[w].spec_dirty() || m0.in_subtree(
                    m0.s()[w].spec_id(),
                    id,
                )));
                assert(self.node(x) == self.s()[self.iof(x)]);
            }
            assert(self.links_closed()) by {
                assert forall|x: u128| #[trigger] self.has(x) implies self.links_ok(x) by {
                    assert(m0.has(x));
                    assert(m0.links_ok(x));
                    assert(same_links(self.node(x), m0.node(x)));
                    match self.node(x).spec_parent() {
                        Option::Some(p) => {
                            assert(same_links(self.node(p), m0.node(p)));
                        },
                        Option::None => {},
                    }
                    assert forall|c: u128|
                        #[trigger] self.node(x).spec_children().contains(c) implies self.has(c)
                        && self.node(c).spec_parent() == Option::Some(x) by {
                        assert(m0.node(x).spec_children().contains(c));
                        assert(m0.has(c));
                        assert(same_links(self.node(c), m0.node(c)));
                    }
                }
            }
            assert(self.dirty_propagated()) by {
                assert forall|c: u128| #[trigger] self.has(c) implies match self.node(
                    c,
                ).spec_parent() {
                    Option::Some(p) => self.node(p).spec_dirty() ==> self.node(c).spec_dirty(),
                    Option::None => true,
                } by {
                    assert(m0.has(c));
                    assert(m0.links_ok(c));
                    match self.node(c).spec_parent() {
                        Option::Some(p) => {
                            assert(m0.node(c).spec_parent() == Option::Some(p));
                            if self.node(p).spec_dirty() {
                                if m0.node(p).spec_dirty() {
                                    assert(m0.node(c).spec_dirty());
                                } else {
                                    assert(m0.in_subtree(p, id));
                                    let k = choose|k: nat|
                                        m0.anc(p, k) == Option::<u128>::Some(id);
                                    assert(m0.anc(c, (k + 1) as nat) == Option::Some(id)) by {
                                        assert(m0.anc(c, (k + 1) as nat) == m0.anc(p, k));
                                    }
                                    assert(m0.in_subtree(c, id));
                                }
                            }
                        },
                        Option::None => {},
                    }
                }
            }
            assert(self.acyclic()) by {
                assert forall|x: u128| #[trigger] self.has(x) implies exists|k: nat|
                    self.anc(x, k) == Option::<u128>::None by {
                    assert(m0.has(x));
                    let k0 = choose|k: nat| m0.anc(x, k) == Option::<u128>::None;
                    TransformMap::lemma_anc_preserved(m0, *self, x, k0);
                    assert(self.anc(x, k0) == Option::<u128>::None);
                }
            }
        }
    }

    /// A record rewrite that keeps every identifier, link and staleness flag
    /// keeps the whole invariant.
    proof fn lemma_same_shape_wf(m1: TransformMap, m2: TransformMap)
        requires
            m1.wf(),
            m2.ids_distinct(),
            m2.s().len() == m1.s().len(),
            forall|x: u128| #[trigger] m2.has(x) <==> m1.has(x),
            forall|x: u128|
                #[trigger] m1.has(x) ==> same_links(m2.node(x), m1.node(x)) && m2.node(
                    x,
                ).spec_dirty() == m1.node(x).spec_dirty() && same_cache(
                    m2.node(x),
                    m1.node(x),
                ),
        ensures
            m2.wf(),
    {
        assert(m2.caches_ok()) by {
            assert forall|x: u128| #[trigger] m2.has(x) implies (!m2.node(x).spec_dirty()
                ==> m2.node(x).spec_gl_world_matrix() == math::mat_transpose_of(
                m2.node(x).spec_world_matrix(),
            )) by {
                assert(m1.has(x));
                assert(same_cache(m2.node(x), m1.node(x)));
            }
        }
        assert(m2.links_closed()) by {
            assert forall|x: u128| #[trigger] m2.has(x) implies m2.links_ok(x) by {
                assert(m1.has(x));
                assert(m1.links_ok(x));
                match m2.node(x).spec_parent() {
                    Option::Some(z) => {
                        assert(same_links(m2.node(z), m1.node(z)));
                    },
                    Option::None => {},
                }
                assert forall|c: u128|
                    #[trigger] m2.node(x).spec_children().contains(c) implies m2.has(c)
                    && m2.node(c).spec_parent() == Option::Some(x) by {
                    assert(m1.node(x).spec_children().contains(c));
                    assert(m1.has(c));
                    assert(same_links(m2.node(c), m1.node(c)));
                }
            }
        }
        assert(m2.dirty_propagated()) by {
            assert forall|c: u128| #[trigger] m2.has(c) implies match m2.node(c).spec_parent() {
                Option::Some(z) => m2.node(z).spec_dirty() ==> m2.node(c).spec_dirty(),
                Option::None => true,
            } by {
                assert(m1.has(c));
                assert(m1.links_ok(c));
                match m2.node(c).spec_parent() {
                    Option::Some(z) => {
                        assert(m1.node(c).spec_parent() == Option::Some(z));
                        assert(same_links(m2.node(z), m1.node(z)));
                    },
                    Option::None => {},
                }
            }
        }
        assert(m2.acyclic()) by {
            assert forall|x: u128| #[trigger] m2.has(x) implies exists|k: nat|
                m2.anc(x, k) == Option::<u128>::None by {
                assert(m1.has(x));
                let k0 = choose|k: nat| m1.anc(x, k) == Option::<u128>::None;
                TransformMap::lemma_anc_preserved(m1, m2, x, k0);
                assert(m2.anc(x, k0) == Option::<u128>::None);
            }
        }
    }

    /// Marks the node's subtree stale and overwrites the node's local pose.
    /// Every local movement and rotation operator funnels through here.
    fn write_pose(&mut self, id: u128, position: glam::Vec3, orientation: glam::Quat)
        requires
            old(self).wf(),
            old(self).has(id),
        ensures
            final(self).wf(),
            final(self).s().len() == old(self).s().len(),
            forall|x: u128| #[trigger] final(self).has(x) <==> old(self).has(x),
            forall|x: u128|
                #[trigger] old(self).has(x) ==> same_links(final(self).node(x), old(self).node(x))
                    && same_cache(final(self).node(x), old(self).node(x)),
            forall|x: u128|
                #[trigger] old(self).has(x) && x != id ==> same_pose(
                    final(self).node(x),
                    old(self).node(x),
                ),
            forall|x: u128|
                #[trigger] old(self).has(x) ==> final(self).node(x).spec_dirty() == (old(
                    self,
                ).node(x).spec_dirty() || old(self).in_subtree(x, id)),
            final(self).node(id).spec_position() == position,
            final(self).node(id).spec_orientation() == orientation,
    {
        let ghost o = *self;
        self.set_dirty(id);
        let ghost m1 = *self;
        let i = self.index_of(id);
        proof {
            self.lemma_has_node(id);
        }
        let t = &mut self.transforms[i];
        t.set_pose(position, orientation);
        proof {
            let tn = self.s()[i as int];
            assert(self.s() == m1.s().update(i as int, tn));
            TransformMap::lemma_update(m1, *self, i as int, tn);
            assert(self.node(id) == tn);
            assert forall|x: u128| #[trigger] m1.has(x) implies same_links(
                self.node(x),
                m1.node(x),
            ) && self.node(x).spec_dirty() == m1.node(x).spec_dirty() && same_cache(
                self.node(x),
                m1.node(x),
            ) by {
                if x != id {
                    assert(self.node(x) == m1.node(x));
                }
            }
            TransformMap::lemma_same_shape_wf(m1, *self);
            assert forall|x: u128| #[trigger] o.has(x) implies same_links(
                self.node(x),
                o.node(x),
            ) && same_cache(self.node(x), o.node(x)) && (x != id ==> same_pose(
                self.node(x),
                o.node(x),
            )) && self.node(x).spec_dirty() == (o.node(x).spec_dirty() || o.in_subtree(
                x,
                id,
            )) by {
                assert(m1.has(x));
                if x != id {
                    assert(self.node(x) == m1.node(x));
                }
            }
        }
    }

    /// Whether the node's cached world matrix is stale.
    pub fn is_dirty(&self, id: u128) -> (r: bool)
        requires
            self.ids_distinct(),
            self.has(id),
        ensures
            r == self.node(id).spec_dirty(),
    {
        let i = self.index_of(id);
        self.transforms[i].dirty()
    }

    /// The node's local position.
    pub fn position(&self, id: u128) -> (r: glam::Vec3)
        requires
            self.ids_distinct(),
            self.has(id),
        ensures
            r == self.node(id).spec_position(),
    {
        let i = self.index_of(id);
        self.transforms[i].position()
    }

    /// The node's local orientation.
    pub fn orientation(&self, id: u128) -> (r: glam::Quat)
        requires
            self.ids_distinct(),
            self.has(id),
        ensures
            r == self.node(id).spec_orientation(),
    {
        let i = self.index_of(id);
        self.transforms[i].orientation()
    }

    /// The node's local orientation as Euler angles in radians, intrinsic
    /// X,Y,Z convention.
    pub fn euler_angle(&self, id: u128) -> (r: glam::Vec3)
        requires
            self.ids_distinct(),
            self.has(id),
        ensures
            r == math::quat_to_euler_of(self.node(id).spec_orientation()),
    {
        math::quat_to_euler(self.orientation(id))
    }

    /// The node's parent key, `None` for a root.
    pub fn parent(&self, id: u128) -> (r: Option<u128>)
        requires
            self.ids_distinct(),
            self.has(id),
        ensures
            r == self.node(id).spec_parent(),
    {
        let i = self.index_of(id);
        self.transforms[i].parent()
    }

    /// The node's children keys.
    pub fn children(&self, id: u128) -> (r: &Vec<u128>)
        requires
            self.ids_distinct(),
            self.has(id),
        ensures
            r@ == self.node(id).spec_children(),
    {
        let i = self.index_of(id);
        self.transforms[i].children()
    }

    /// How many children the node lists.
    pub fn children_count(&self, id: u128) -> (r: usize)
        requires
            self.ids_distinct(),
            self.has(id),
        ensures
            r == self.node(id).spec_children().len(),
    {
        self.children(id).len()
    }

    /// Whether `child` is listed among `parent`'s children.
    pub fn has_child(&self, parent: u128, child: u128) -> (r: bool)
        requires
            self.ids_distinct(),
            self.has(parent),
        ensures
            r == self.node(parent).spec_children().contains(child),
    {
        let cs = self.children(parent);
        let n = cs.len();
        let mut k: usize = 0;
        while k < n
            invariant
                n == cs@.len(),
                k <= n,
                cs@ == self.node(parent).spec_children(),
                forall|j: int| 0 <= j < k ==> cs@[j] != child,
            decreases n - k,
        {
            if cs[k] == child {
                return true;
            }
            k += 1;
        }
        false
    }

    /// Whether the node lists itself as its own parent.  Under the store's
    /// invariant this never holds; the query is kept for callers that probe
    /// the raw link.
    pub fn is_parent(&self, id: u128) -> (r: bool)
        requires
            self.ids_distinct(),
            self.has(id),
        ensures
            r == (self.node(id).spec_parent() == Option::Some(id)),
    {
        match self.parent(id) {
            Option::Some(p) => p == id,
            Option::None => false,
        }
    }

    /// Whether `child`'s parent link names `parent`.
    pub fn is_parent_of(&self, parent: u128, child: u128) -> (r: bool)
        requires
            self.ids_distinct(),
            self.has(child),
        ensures
            r == (self.node(child).spec_parent() == Option::Some(parent)),
    {
        match self.parent(child) {
            Option::Some(p) => p == parent,
            Option::None => false,
        }
    }

    /// The canonical forward unit vector carried into the node's local frame
    /// by the inverse of its orientation matrix.
    pub fn depth_vector(&self, id: u128) -> (r: glam::Vec3)
        requires
            self.ids_distinct(),
            self.has(id),
        ensures
            r == spec_depth_vector(self.node(id)),
    {
        let q = self.orientation(id);
        math::vec3_transform(math::vec3_forward(), math::mat_inverse(math::quat_to_matrix(q)))
    }

    /// The canonical up unit vector carried the same way.
    pub fn vertical_vector(&self, id: u128) -> (r: glam::Vec3)
        requires
            self.ids_distinct(),
            self.has(id),
        ensures
            r == spec_vertical_vector(self.node(id)),
    {
        let q = self.orientation(id);
        math::vec3_transform(math::vec3_up(), math::mat_inverse(math::quat_to_matrix(q)))
    }

    /// The cross product of the vertical and depth vectors, in that order;
    /// the operand order fixes the sign used by sideways movement.
    pub fn horizontal_negated_vector(&self, id: u128) -> (r: glam::Vec3)
        requires
            self.ids_distinct(),
            self.has(id),
        ensures
            r == spec_horizontal_vector(self.node(id)),
    {
        math::vec3_cross(self.vertical_vector(id), self.depth_vector(id))
    }

    /// The cross product taken in the opposite order.
    pub fn horizontal_post_vector(&self, id: u128) -> (r: glam::Vec3)
        requires
            self.ids_distinct(),
            self.has(id),
        ensures
            r == math::vec3_cross_of(
                spec_depth_vector(self.node(id)),
                spec_vertical_vector(self.node(id)),
            ),
    {
        math::vec3_cross(self.depth_vector(id), self.vertical_vector(id))
    }

    /// Adds a raw offset to the node's local position and marks its subtree
    /// stale.
    pub fn move_by(&mut self, id: u128, offset: glam::Vec3)
        requires
            old(self).wf(),
            old(self).has(id),
        ensures
            final(self).wf(),
            final(self).s().len() == old(self).s().len(),
            forall|x: u128| #[trigger] final(self).has(x) <==> old(self).has(x),
            forall|x: u128|
                #[trigger] old(self).has(x) ==> same_links(final(self).node(x), old(self).node(x))
                    && same_cache(final(self).node(x), old(self).node(x)),
            forall|x: u128|
                #[trigger] old(self).has(x) && x != id ==> same_pose(
                    final(self).node(x),
                    old(self).node(x),
                ),
            forall|x: u128|
                #[trigger] old(self).has(x) ==> final(self).node(x).spec_dirty() == (old(
                    self,
                ).node(x).spec_dirty() || old(self).in_subtree(x, id)),
            final(self).node(id).spec_position() == math::vec3_add_of(
                old(self).node(id).spec_position(),
                offset,
            ),
            final(self).node(id).spec_orientation() == old(self).node(id).spec_orientation(),
    {
        let p = self.position(id);
        let q = self.orientation(id);
        let moved = math::vec3_add(p, offset);
        self.write_pose(id, moved, q);
    }

    /// Replaces the node's local position and marks its subtree stale.
    pub fn set_position(&mut self, id: u128, position: glam::Vec3)
        requires
            old(self).wf(),
            old(self).has(id),
        ensures
            final(self).wf(),
            final(self).s().len() == old(self).s().len(),
            forall|x: u128| #[trigger] final(self).has(x) <==> old(self).has(x),
            forall|x: u128|
                #[trigger] old(self).has(x) ==> same_links(final(self).node(x), old(self).node(x))
                    && same_cache(final(self).node(x), old(self).node(x)),
            forall|x: u128|
                #[trigger] old(self).has(x) && x != id ==> same_pose(
                    final(self).node(x),
                    old(self).node(x),
                ),
            forall|x: u128|
                #[trigger] old(self).has(x) ==> final(self).node(x).spec_dirty() == (old(
                    self,
                ).node(x).spec_dirty() || old(self).in_subtree(x, id)),
            final(self).node(id).spec_position() == position,
            final(self).node(id).spec_orientation() == old(self).node(id).spec_orientation(),
    {
        let q = self.orientation(id);
        self.write_pose(id, position, q);
    }

    /// Replaces the node's local orientation by the rotation built from the
    /// given Euler angles in degrees (intrinsic X,Y,Z) and marks its subtree
    /// stale.
    pub fn set_orientation(&mut self, id: u128, euler_angle: glam::Vec3)
        requires
            old(self).wf(),
            old(self).has(id),
        ensures
            final(self).wf(),
            final(self).s().len() == old(self).s().len(),
            forall|x: u128| #[trigger] final(self).has(x) <==> old(self).has(x),
            forall|x: u128|
                #[trigger] old(self).has(x) ==> same_links(final(self).node(x), old(self).node(x))
                    && same_cache(final(self).node(x), old(self).node(x)),
            forall|x: u128|
                #[trigger] old(self).has(x) && x != id ==> same_pose(
                    final(self).node(x),
                    old(self).node(x),
                ),
            forall|x: u128|
                #[trigger] old(self).has(x) ==> final(self).node(x).spec_dirty() == (old(
                    self,
                ).node(x).spec_dirty() || old(self).in_subtree(x, id)),
            final(self).node(id).spec_orientation() == math::quat_from_euler_of(
                math::vec3_to_radians_of(euler_angle),
            ),
            final(self).node(id).spec_position() == old(self).node(id).spec_position(),
    {
        let p = self.position(id);
        let radians = math::vec3_to_radians(euler_angle);
        let q = math::quat_from_euler(radians);
        self.write_pose(id, p, q);
    }

    /// Points the node at a target: replaces its orientation by the
    /// quaternion of the look-at matrix built from its position, the target
    /// and the up vector, and marks its subtree stale.
    pub fn look_at(&mut self, id: u128, target: glam::Vec3, up: glam::Vec3)
        requires
            old(self).wf(),
            old(self).has(id),
        ensures
            final(self).wf(),
            final(self).s().len() == old(self).s().len(),
            forall|x: u128| #[trigger] final(self).has(x) <==> old(self).has(x),
            forall|x: u128|
                #[trigger] old(self).has(x) ==> same_links(final(self).node(x), old(self).node(x))
                    && same_cache(final(self).node(x), old(self).node(x)),
            forall|x: u128|
                #[trigger] old(self).has(x) && x != id ==> same_pose(
                    final(self).node(x),
                    old(self).node(x),
                ),
            forall|x: u128|
                #[trigger] old(self).has(x) ==> final(self).node(x).spec_dirty() == (old(
                    self,
                ).node(x).spec_dirty() || old(self).in_subtree(x, id)),
            final(self).node(id).spec_orientation() == math::quat_from_matrix_of(
                math::mat_look_at_of(old(self).node(id).spec_position(), target, up),
            ),
            final(self).node(id).spec_position() == old(self).node(id).spec_position(),
    {
        let p = self.position(id);
        let m = math::mat_look_at(p, target, up);
        let q = math::quat_from_matrix(m);
        self.write_pose(id, p, q);
    }

    /// Moves the node along its depth vector by the given distance and marks
    /// its subtree stale.
    pub fn move_depth(&mut self, id: u128, distance: Scalar)
        requires
            old(self).wf(),
            old(self).has(id),
        ensures
            final(self).wf(),
            final(self).s().len() == old(self).s().len(),
            forall|x: u128| #[trigger] final(self).has(x) <==> old(self).has(x),
            forall|x: u128|
                #[trigger] old(self).has(x) ==> same_links(final(self).node(x), old(self).node(x))
                    && same_cache(final(self).node(x), old(self).node(x)),
            forall|x: u128|
                #[trigger] old(self).has(x) && x != id ==> same_pose(
                    final(self).node(x),
                    old(self).node(x),
                ),
            forall|x: u128|
                #[trigger] old(self).has(x) ==> final(self).node(x).spec_dirty() == (old(
                    self,
                ).node(x).spec_dirty() || old(self).in_subtree(x, id)),
            final(self).node(id).spec_position() == math::vec3_add_of(
                old(self).node(id).spec_position(),
                math::vec3_scale_of(spec_depth_vector(old(self).node(id)), distance),
            ),
            final(self).node(id).spec_orientation() == old(self).node(id).spec_orientation(),
    {
        let v = self.depth_vector(id);
        let delta = math::vec3_scale(v, distance);
        self.move_by(id, delta);
    }

    /// Moves the node along its vertical vector by the given distance and
    /// marks its subtree stale.
    pub fn move_vertical(&mut self, id: u128, distance: Scalar)
        requires
            old(self).wf(),
            old(self).has(id),
        ensures
            final(self).wf(),
            final(self).s().len() == old(self).s().len(),
            forall|x: u128| #[trigger] final(self).has(x) <==> old(self).has(x),
            forall|x: u128|
                #[trigger] old(self).has(x) ==> same_links(final(self).node(x), old(self).node(x))
                    && same_cache(final(self).node(x), old(self).node(x)),
            forall|x: u128|
                #[trigger] old(self).has(x) && x != id ==> same_pose(
                    final(self).node(x),
                    old(self).node(x),
                ),
            forall|x: u128|
                #[trigger] old(self).has(x) ==> final(self).node(x).spec_dirty() == (old(
                    self,
                ).node(x).spec_dirty() || old(self).in_subtree(x, id)),
            final(self).node(id).spec_position() == math::vec3_add_of(
                old(self).node(id).spec_position(),
                math::vec3_scale_of(spec_vertical_vector(old(self).node(id)), distance),
            ),
            final(self).node(id).spec_orientation() == old(self).node(id).spec_orientation(),
    {
        let v = self.vertical_vector(id);
        let delta = math::vec3_scale(v, distance);
        self.move_by(id, delta);
    }

    /// Moves the node along its horizontal vector (vertical crossed with
    /// depth) by the given distance and marks its subtree stale.
    pub fn move_horizontal(&mut self, id: u128, distance: Scalar)
        requires
            old(self).wf(),
            old(self).has(id),
        ensures
            final(self).wf(),
            final(self).s().len() == old(self).s().len(),
            forall|x: u128| #[trigger] final(self).has(x) <==> old(self).has(x),
            forall|x: u128|
                #[trigger] old(self).has(x) ==> same_links(final(self).node(x), old(self).node(x))
                    && same_cache(final(self).node(x), old(self).node(x)),
            forall|x: u128|
                #[trigger] old(self).has(x) && x != id ==> same_pose(
                    final(self).node(x),
                    old(self).node(x),
                ),
            forall|x: u128|
                #[trigger] old(self).has(x) ==> final(self).node(x).spec_dirty() == (old(
                    self,
                ).node(x).spec_dirty() || old(self).in_subtree(x, id)),
            final(self).node(id).spec_position() == math::vec3_add_of(
                old(self).node(id).spec_position(),
                math::vec3_scale_of(spec_horizontal_vector(old(self).node(id)), distance),
            ),
            final(self).node(id).spec_orientation() == old(self).node(id).spec_orientation(),
    {
        let v = self.horizontal_negated_vector(id);
        let delta = math::vec3_scale(v, distance);
        self.move_by(id, delta);
    }

    /// Prepends a rotation about the depth axis, built from the angle in
    /// degrees negated and converted to radians, and marks the subtree stale.
    pub fn rotate_depth(&mut self, id: u128, angle: Scalar)
        requires
            old(self).wf(),
            old(self).has(id),
        ensures
            final(self).wf(),
            final(self).s().len() == old(self).s().len(),
            forall|x: u128| #[trigger] final(self).has(x) <==> old(self).has(x),
            forall|x: u128|
                #[trigger] old(self).has(x) ==> same_links(final(self).node(x), old(self).node(x))
                    && same_cache(final(self).node(x), old(self).node(x)),
            forall|x: u128|
                #[trigger] old(self).has(x) && x != id ==> same_pose(
                    final(self).node(x),
                    old(self).node(x),
                ),
            forall|x: u128|
                #[trigger] old(self).has(x) ==> final(self).node(x).spec_dirty() == (old(
                    self,
                ).node(x).spec_dirty() || old(self).in_subtree(x, id)),
            final(self).node(id).spec_orientation() == math::quat_mul_of(
                math::quat_from_euler_of(
                    math::vec3_to_radians_of(
                        math::vec3_scale_of(math::vec3_forward_of(), math::scalar_neg_of(angle)),
                    ),
                ),
                old(self).node(id).spec_orientation(),
            ),
            final(self).node(id).spec_position() == old(self).node(id).spec_position(),
    {
        let p = self.position(id);
        let q = self.orientation(id);
        let degrees = math::vec3_scale(math::vec3_forward(), math::scalar_neg(angle));
        let rotation = math::quat_from_euler(math::vec3_to_radians(degrees));
        self.write_pose(id, p, math::quat_mul(rotation, q));
    }

    /// Prepends a rotation about the vertical axis, built from the angle in
    /// degrees negated and converted to radians, and marks the subtree stale.
    pub fn rotate_vertical(&mut self, id: u128, angle: Scalar)
        requires
            old(self).wf(),
            old(self).has(id),
        ensures
            final(self).wf(),
            final(self).s().len() == old(self).s().len(),
            forall|x: u128| #[trigger] final(self).has(x) <==> old(self).has(x),
            forall|x: u128|
                #[trigger] old(self).has(x) ==> same_links(final(self).node(x), old(self).node(x))
                    && same_cache(final(self).node(x), old(self).node(x)),
            forall|x: u128|
                #[trigger] old(self).has(x) && x != id ==> same_pose(
                    final(self).node(x),
                    old(self).node(x),
                ),
            forall|x: u128|
                #[trigger] old(self).has(x) ==> final(self).node(x).spec_dirty() == (old(
                    self,
                ).node(x).spec_dirty() || old(self).in_subtree(x, id)),
            final(self).node(id).spec_orientation() == math::quat_mul_of(
                math::quat_from_euler_of(
                    math::vec3_to_radians_of(
                        math::vec3_scale_of(math::vec3_up_of(), math::scalar_neg_of(angle)),
                    ),
                ),
                old(self).node(id).spec_orientation(),
            ),
            final(self).node(id).spec_position() == old(self).node(id).spec_position(),
    {
        let p = self.position(id);
        let q = self.orientation(id);
        let degrees = math::vec3_scale(math::vec3_up(), math::scalar_neg(angle));
        let rotation = math::quat_from_euler(math::vec3_to_radians(degrees));
        self.write_pose(id, p, math::quat_mul(rotation, q));
    }

    /// Prepends a rotation about the horizontal axis, built from the angle in
    /// degrees converted to radians without negation, and marks the subtree
    /// stale.  The sign asymmetry against the other two axes is a fixed
    /// convention of this system.
    pub fn rotate_horizontal(&mut self, id: u128, angle: Scalar)
        requires
            old(self).wf(),
            old(self).has(id),
        ensures
            final(self).wf(),
            final(self).s().len() == old(self).s().len(),
            forall|x: u128| #[trigger] final(self).has(x) <==> old(self).has(x),
            forall|x: u128|
                #[trigger] old(self).has(x) ==> same_links(final(self).node(x), old(self).node(x))
                    && same_cache(final(self).node(x), old(self).node(x)),
            forall|x: u128|
                #[trigger] old(self).has(x) && x != id ==> same_pose(
                    final(self).node(x),
                    old(self).node(x),
                ),
            forall|x: u128|
                #[trigger] old(self).has(x) ==> final(self).node(x).spec_dirty() == (old(
                    self,
                ).node(x).spec_dirty() || old(self).in_subtree(x, id)),
            final(self).node(id).spec_orientation() == math::quat_mul_of(
                math::quat_from_euler_of(
                    math::vec3_to_radians_of(
                        math::vec3_scale_of(math::vec3_right_of(), angle),
                    ),
                ),
                old(self).node(id).spec_orientation(),
            ),
            final(self).node(id).spec_position() == old(self).node(id).spec_position(),
    {
        let p = self.position(id);
        let q = self.orientation(id);
        let degrees = math::vec3_scale(math::vec3_right(), angle);
        let rotation = math::quat_from_euler(math::vec3_to_radians(degrees));
        self.write_pose(id, p, math::quat_mul(rotation, q));
    }

    /// Attaches an existing node under an existing parent: shorthand for a
    /// reparent onto that parent.
    pub fn add_child_from_id(&mut self, parent: u128, child: u128) -> (r: Result<
        (),
        TransformError,
    >)
        requires
            old(self).wf(),
        ensures
            final(self).wf(),
            r == old(self).reparent_check(child, Option::Some(parent)),
            r is Err ==> *final(self) == *old(self),
            (r is Ok && Option::Some(parent) == old(self).node(child).spec_parent())
                ==> *final(self) == *old(self),
            r is Ok ==> final(self).s().len() == old(self).s().len() && (forall|x: u128|
                #[trigger] final(self).has(x) <==> old(self).has(x)),
            (r is Ok && Option::Some(parent) != old(self).node(child).spec_parent()) ==> {
                &&& final(self).node(child).spec_parent() == Option::Some(parent)
                &&& forall|c: u128|
                    #[trigger] final(self).node(parent).spec_children().contains(c) <==> (old(
                        self,
                    ).node(parent).spec_children().contains(c) || c == child)
                &&& forall|x: u128|
                    #[trigger] old(self).has(x) ==> final(self).node(x).spec_id() == old(
                        self,
                    ).node(x).spec_id() && same_pose(final(self).node(x), old(self).node(x))
                        && same_cache(final(self).node(x), old(self).node(x))
                &&& forall|x: u128|
                    #[trigger] old(self).has(x) ==> final(self).node(x).spec_dirty() == (old(
                        self,
                    ).node(x).spec_dirty() || old(self).in_subtree(x, child))
                &&& forall|x: u128|
                    #[trigger] old(self).has(x) && x != child ==> final(self).node(
                        x,
                    ).spec_parent() == old(self).node(x).spec_parent()
                &&& forall|x: u128|
                    #[trigger] old(self).has(x) && Option::Some(x) != old(self).node(
                        child,
                    ).spec_parent() && x != parent ==> final(self).node(x).spec_children()
                        == old(self).node(x).spec_children()
            },
    {
        self.reparent(child, Option::Some(parent))
    }

    /// Detaches the node from its parent, making it a root: shorthand for a
    /// reparent onto `None`.
    pub fn detach(&mut self, node: u128) -> (r: Result<(), TransformError>)
        requires
            old(self).wf(),
        ensures
            final(self).wf(),
            r == old(self).reparent_check(node, Option::<u128>::None),
            r is Err ==> *final(self) == *old(self),
            (r is Ok && Option::<u128>::None == old(self).node(node).spec_parent())
                ==> *final(self) == *old(self),
            r is Ok ==> final(self).s().len() == old(self).s().len() && (forall|x: u128|
                #[trigger] final(self).has(x) <==> old(self).has(x)),
            (r is Ok && Option::<u128>::None != old(self).node(node).spec_parent()) ==> {
                &&& final(self).node(node).spec_parent() == Option::<u128>::None
                &&& forall|x: u128|
                    #[trigger] old(self).has(x) ==> final(self).node(x).spec_id() == old(
                        self,
                    ).node(x).spec_id() && same_pose(final(self).node(x), old(self).node(x))
                        && same_cache(final(self).node(x), old(self).node(x))
                &&& forall|x: u128|
                    #[trigger] old(self).has(x) ==> final(self).node(x).spec_dirty() == (old(
                        self,
                    ).node(x).spec_dirty() || old(self).in_subtree(x, node))
            },
    {
        self.reparent(node, Option::<u128>::None)
    }

    /// Creates a fresh transform and attaches it under the given parent.
    /// The fresh node carries no children, so nothing else is marked stale.
    pub fn add_child(&mut self, parent: u128, face_y: bool) -> (r: u128)
        requires
            old(self).wf(),
            old(self).has(parent),
        ensures
            final(self).wf(),
            !old(self).has(r),
            final(self).has(r),
            forall|x: u128| #[trigger] final(self).has(x) <==> (old(self).has(x) || x == r),
            final(self).s().len() == old(self).s().len() + 1,
            final(self).node(r).spec_parent() == Option::Some(parent),
            final(self).node(r).spec_children() == Seq::<u128>::empty(),
            final(self).node(r).spec_dirty(),
            final(self).node(r).spec_position() == math::vec3_zero_of(),
            final(self).node(r).spec_orientation() == initial_orientation(face_y),
            forall|c: u128|
                #[trigger] final(self).node(parent).spec_children().contains(c) <==> (old(
                    self,
                ).node(parent).spec_children().contains(c) || c == r),
            forall|x: u128|
                #[trigger] old(self).has(x) && x != parent ==> same_links(
                    final(self).node(x),
                    old(self).node(x),
                ) && same_pose(final(self).node(x), old(self).node(x)) && same_cache(
                    final(self).node(x),
                    old(self).node(x),
                ) && final(self).node(x).spec_dirty() == old(self).node(x).spec_dirty(),
    {
        let child = self.new_transform(face_y);
        let ghost m1 = *self;
        proof {
            assert(m1.node(child).spec_parent() == Option::<u128>::None);
            assert(m1.has(parent));
            assert(parent != child);
            // The fresh node has no ancestors of its own chain besides itself,
            // and the parent's chain cannot pass through it.
            if m1.in_subtree(parent, child) {
                let k = choose|k: nat| m1.anc(parent, k) == Option::<u128>::Some(child);
                let k0 = choose|k2: nat|
                    old(self).anc(parent, k2) == Option::<u128>::None;
                assert forall|j: nat| m1.anc(parent, j) == old(self).anc(parent, j) by {
                    TransformMap::lemma_anc_preserved(*old(self), m1, parent, j);
                }
                assert(old(self).anc(parent, k) == Option::Some(child));
                old(self).lemma_anc_has(parent, k);
                assert(old(self).has(child));
            }
            assert(m1.reparent_check(child, Option::Some(parent)) is Ok);
        }
        let res = self.add_child_from_id(parent, child);
        proof {
            assert(res is Ok);
            // Nothing sat below the fresh leaf, so only the leaf itself was
            // marked stale.
            assert forall|x: u128| #[trigger] m1.has(x) && x != child implies !m1.in_subtree(
                x,
                child,
            ) by {
                if m1.in_subtree(x, child) {
                    let k = choose|k: nat| m1.anc(x, k) == Option::<u128>::Some(child);
                    m1.lemma_first_hit(x, child, k);
                    let m = choose|m: nat|
                        m <= k && #[trigger] m1.anc(x, m) == Option::Some(child) && (forall|
                            j: nat,
                        | j < m ==> m1.anc(x, j) != Option::<u128>::Some(child));
                    assert(m >= 1);
                    m1.lemma_chain_penultimate(x, child, m);
                    let y = choose|y: u128|
                        (#[trigger] m1.node(y)).spec_parent() == Option::Some(child) && m1.has(
                            y,
                        ) && m1.anc(x, (m - 1) as nat) == Option::Some(y);
                    assert(m1.links_ok(y));
                    assert(m1.node(child).spec_children().contains(y));
                }
            }
            assert forall|x: u128| #[trigger] old(self).has(x) && x != parent implies same_links(
                self.node(x),
                old(self).node(x),
            ) && same_pose(self.node(x), old(self).node(x)) && same_cache(
                self.node(x),
                old(self).node(x),
            ) && self.node(x).spec_dirty() == old(self).node(x).spec_dirty() by {
                assert(m1.node(x) == old(self).node(x));
                assert(m1.has(x) && x != child);
                assert(!m1.in_subtree(x, child));
                assert(same_pose(self.node(x), m1.node(x)) && same_cache(
                    self.node(x),
                    m1.node(x),
                ));
                assert(self.node(x).spec_dirty() == m1.node(x).spec_dirty());
                assert(self.node(x).spec_parent() == m1.node(x).spec_parent());
                assert(self.node(x).spec_children() == m1.node(x).spec_children());
                assert(self.node(x).spec_id() == m1.node(x).spec_id());
            }
        }
        child
    }

    /// The local matrix of a node: the inverse of its orientation's rotation
    /// matrix, composed with the translation matrix of its position.  The
    /// rotation-then-translation order and the rotation inversion are a fixed
    /// convention of this system.
    pub fn local_matrix(&self, id: u128) -> (r: glam::Mat4)
        requires
            self.ids_distinct(),
            self.has(id),
        ensures
            r == spec_local_matrix(self.node(id)),
    {
        let i = self.index_of(id);
        let rot = math::quat_to_matrix(self.transforms[i].orientation());
        let tr = math::mat_translation(self.transforms[i].position());
        math::mat_mul(math::mat_inverse(rot), tr)
    }


    /// One downward step of the resolution walk: storing the composed
    /// product at the chain position keeps every bookkeeping fact of the
    /// walk.
    #[verifier::spinoff_prover]
    #[verifier::rlimit(100)]
    proof fn lemma_resolve_step(
        o: TransformMap,
        prev: TransformMap,
        now: TransformMap,
        ch: Seq<u128>,
        idx: int,
        parent_base: glam::Mat4,
    )
        requires
            o.wf(),
            0 <= idx < ch.len(),
            forall|t: int|
                0 <= t < ch.len() ==> o.has(#[trigger] ch[t]) && o.node(ch[t]).spec_dirty(),
            forall|t1: int, t2: int| 0 <= t1 < t2 < ch.len() ==> ch[t1] != ch[t2],
            forall|t: int|
                0 <= t < ch.len() - 1 ==> o.node(#[trigger] ch[t]).spec_parent()
                    == Option::Some(ch[t + 1]),
            (match o.node(ch[ch.len() - 1]).spec_parent() {
                Option::None => true,
                Option::Some(p) => o.has(p) && !o.node(p).spec_dirty(),
            }),
            prev.s().len() == o.s().len(),
            forall|x: u128| #[trigger] prev.has(x) <==> o.has(x),
            forall|x: u128|
                #[trigger] o.has(x) ==> same_links(prev.node(x), o.node(x)) && same_pose(
                    prev.node(x),
                    o.node(x),
                ),
            forall|x: u128|
                #[trigger] o.has(x) && !ch.contains(x) ==> prev.node(x).spec_dirty() == o.node(
                    x,
                ).spec_dirty() && same_cache(prev.node(x), o.node(x)),
            forall|t: int|
                0 <= t < idx + 1 ==> prev.node(#[trigger] ch[t]).spec_dirty() && same_cache(
                    prev.node(ch[t]),
                    o.node(ch[t]),
                ),
            forall|t: int|
                idx + 1 <= t < ch.len() ==> !prev.node(#[trigger] ch[t]).spec_dirty(),
            forall|t: int|
                idx + 1 <= t < ch.len() ==> prev.resolved_against_parent(#[trigger] ch[t]),
            idx + 1 == ch.len() ==> (match o.node(ch[ch.len() - 1]).spec_parent() {
                Option::None => parent_base == math::mat_identity_of(),
                Option::Some(p) => parent_base == o.node(p).spec_world_matrix(),
            }),
            idx + 1 < ch.len() ==> parent_base == prev.node(ch[idx + 1]).spec_world_matrix(),
            forall|x: u128| #[trigger] now.has(x) <==> prev.has(x),
            now.s().len() == prev.s().len(),
            forall|x: u128|
                #[trigger] prev.has(x) && x != ch[idx] ==> now.node(x) == prev.node(x),
            same_links(now.node(ch[idx]), prev.node(ch[idx])),
            same_pose(now.node(ch[idx]), prev.node(ch[idx])),
            !now.node(ch[idx]).spec_dirty(),
            now.node(ch[idx]).spec_world_matrix() == math::mat_mul_of(
                spec_local_matrix(now.node(ch[idx])),
                parent_base,
            ),
            now.node(ch[idx]).spec_gl_world_matrix() == math::mat_transpose_of(
                now.node(ch[idx]).spec_world_matrix(),
            ),
        ensures
            forall|x: u128|
                #[trigger] o.has(x) ==> same_links(now.node(x), o.node(x)) && same_pose(
                    now.node(x),
                    o.node(x),
                ),
            forall|x: u128|
                #[trigger] o.has(x) && !ch.contains(x) ==> now.node(x).spec_dirty() == o.node(
                    x,
                ).spec_dirty() && same_cache(now.node(x), o.node(x)),
            forall|t: int|
                0 <= t < idx ==> now.node(#[trigger] ch[t]).spec_dirty() && same_cache(
                    now.node(ch[t]),
                    o.node(ch[t]),
                ),
            forall|t: int| idx <= t < ch.len() ==> !now.node(#[trigger] ch[t]).spec_dirty(),
            forall|t: int|
                idx <= t < ch.len() ==> now.resolved_against_parent(#[trigger] ch[t]),
    {
        let x = ch[idx];
        assert(o.has(x));
        assert forall|y: u128| #[trigger] o.has(y) implies same_links(now.node(y), o.node(y))
            && same_pose(now.node(y), o.node(y)) by {
            assert(prev.has(y));
            if y != x {
                assert(now.node(y) == prev.node(y));
            }
        }
        assert forall|y: u128| #[trigger] o.has(y) && !ch.contains(y) implies now.node(
            y,
        ).spec_dirty() == o.node(y).spec_dirty() && same_cache(now.node(y), o.node(y)) by {
            assert(prev.has(y));
            assert(y != x);
            assert(now.node(y) == prev.node(y));
        }
        assert forall|t: int| 0 <= t < idx implies now.node(#[trigger] ch[t]).spec_dirty()
            && same_cache(now.node(ch[t]), o.node(ch[t])) by {
            assert(ch[t] != x);
            assert(prev.has(ch[t]));
            assert(now.node(ch[t]) == prev.node(ch[t]));
        }
        assert forall|t: int| idx <= t < ch.len() implies !now.node(
            #[trigger] ch[t],
        ).spec_dirty() by {
            if ch[t] != x {
                assert(prev.has(ch[t]));
                assert(now.node(ch[t]) == prev.node(ch[t]));
            }
        }
        assert(now.resolved_against_parent(x)) by {
            if idx < ch.len() - 1 {
                assert(o.node(x).spec_parent() == Option::Some(ch[idx + 1]));
                assert(now.node(x).spec_parent() == Option::Some(ch[idx + 1]));
                assert(ch[idx + 1] != x);
                assert(o.has(ch[idx + 1]));
                assert(prev.has(ch[idx + 1]));
                assert(now.node(ch[idx + 1]) == prev.node(ch[idx + 1]));
            } else {
                match o.node(x).spec_parent() {
                    Option::None => {
                        assert(now.node(x).spec_parent() == Option::<u128>::None);
                    },
                    Option::Some(p) => {
                        assert(now.node(x).spec_parent() == Option::Some(p));
                        assert(!ch.contains(p)) by {
                            if ch.contains(p) {
                                assert(o.node(p).spec_dirty());
                            }
                        }
                        assert(o.has(p));
                        assert(prev.has(p));
                        assert(same_cache(prev.node(p), o.node(p)));
                        assert(p != x);
                        assert(now.node(p) == prev.node(p));
                        assert(now.node(p).spec_world_matrix() == parent_base);
                    },
                }
            }
        }
        assert forall|t: int| idx <= t < ch.len() implies now.resolved_against_parent(
            #[trigger] ch[t],
        ) by {
            if t > idx {
                let y = ch[t];
                assert(y != x);
                assert(o.has(y));
                assert(prev.has(y));
                assert(prev.resolved_against_parent(y));
                assert(now.node(y) == prev.node(y));
                if t < ch.len() - 1 {
                    assert(o.node(y).spec_parent() == Option::Some(ch[t + 1]));
                    assert(prev.node(y).spec_parent() == Option::Some(ch[t + 1]));
                    assert(ch[t + 1] != x);
                    assert(o.has(ch[t + 1]));
                    assert(prev.has(ch[t + 1]));
                    assert(now.node(ch[t + 1]) == prev.node(ch[t + 1]));
                } else {
                    match prev.node(y).spec_parent() {
                        Option::None => {},
                        Option::Some(p2) => {
                            assert(o.node(y).spec_parent() == Option::Some(p2));
                            assert(!ch.contains(p2)) by {
                                if ch.contains(p2) {
                                    assert(o.node(p2).spec_dirty());
                                }
                            }
                            assert(p2 != x);
                            assert(o.links_ok(y));
                            assert(o.has(p2));
                            assert(prev.has(p2));
                            assert(now.node(p2) == prev.node(p2));
                        },
                    }
                }
            }
        }
    }

    /// Resolves and returns the node's world matrix lazily.
    ///
    /// A clean node is answered straight from its cache and the store is not
    /// touched.  Otherwise the walk climbs to the nearest clean ancestor (or
    /// a root), recomputes each stale ancestor's local-times-parent product
    /// downward, caches each result with its transpose, and clears exactly
    /// those staleness flags: afterwards a node is dirty exactly if it was
    /// dirty before and is not the queried node or one of its ancestors.
    #[verifier::rlimit(100)]
    pub fn world_matrix(&mut self, id: u128) -> (r: glam::Mat4)
        requires
            old(self).wf(),
            old(self).has(id),
        ensures
            final(self).wf(),
            final(self).s().len() == old(self).s().len(),
            forall|x: u128| #[trigger] final(self).has(x) <==> old(self).has(x),
            forall|x: u128|
                #[trigger] old(self).has(x) ==> same_links(final(self).node(x), old(self).node(x))
                    && same_pose(final(self).node(x), old(self).node(x)),
            forall|x: u128|
                #[trigger] old(self).has(x) ==> final(self).node(x).spec_dirty() == (old(
                    self,
                ).node(x).spec_dirty() && !old(self).in_subtree(id, x)),
            forall|x: u128|
                #[trigger] old(self).has(x) && !(old(self).in_subtree(id, x) && old(self).node(
                    x,
                ).spec_dirty()) ==> same_cache(final(self).node(x), old(self).node(x)),
            forall|x: u128|
                #[trigger] old(self).has(x) && old(self).in_subtree(id, x) && old(self).node(
                    x,
                ).spec_dirty() ==> final(self).resolved_against_parent(x),
            !final(self).node(id).spec_dirty(),
            r == final(self).node(id).spec_world_matrix(),
            !old(self).node(id).spec_dirty() ==> *final(self) == *old(self),
    {
        let ghost o = *self;
        let i0 = self.index_of(id);
        if !self.transforms[i0].dirty() {
            let r = self.transforms[i0].world_matrix();
            proof {
                self.lemma_has_node(id);
                assert forall|x: u128|
                    #[trigger] o.has(x) && o.in_subtree(id, x) implies !o.node(
                    x,
                ).spec_dirty() by {
                    if o.node(x).spec_dirty() {
                        let k = choose|k: nat| o.anc(id, k) == Option::<u128>::Some(x);
                        o.lemma_dirty_down(id, x, k);
                    }
                }
                assert(o.anc(id, 0nat) == Option::Some(id));
                assert(o.in_subtree(id, id));
            }
            return r;
        }
        let mut chain: Vec<u128> = Vec::new();
        chain.push(id);
        let mut cur: u128 = id;
        let mut base: glam::Mat4 = math::mat_identity();
        let ghost k0 = choose|k: nat| o.anc(id, k) == Option::<u128>::None;
        let ghost mut j: nat = 0;
        let mut climbing = true;
        proof {
            assert(o.anc(id, 0nat) == Option::<u128>::Some(id));
        }
        while climbing
            invariant
                *self == o,
                o.wf(),
                o.has(id),
                j + 1 == chain@.len(),
                chain@[0] == id,
                cur == chain@[j as int],
                forall|t: int|
                    0 <= t < chain@.len() ==> o.anc(id, t as nat) == Option::Some(
                        #[trigger] chain@[t],
                    ),
                forall|t: int|
                    0 <= t < chain@.len() ==> o.has(#[trigger] chain@[t]) && o.node(
                        chain@[t],
                    ).spec_dirty(),
                o.anc(id, k0) == Option::<u128>::None,
                j < k0,
                climbing ==> base == math::mat_identity_of(),
                !climbing ==> (match o.node(chain@[j as int]).spec_parent() {
                    Option::None => base == math::mat_identity_of(),
                    Option::Some(p) => o.has(p) && !o.node(p).spec_dirty() && base == o.node(
                        p,
                    ).spec_world_matrix(),
                }),
            decreases k0 - j, (if climbing { 1int } else { 0int }),
        {
            let ci = self.index_of(cur);
            match self.transforms[ci].parent() {
                Option::None => {
                    climbing = false;
                },
                Option::Some(p) => {
                    proof {
                        self.lemma_has_node(cur);
                        assert(o.links_ok(cur));
                        assert(o.has(p));
                        assert(o.anc(p, 0nat) == Option::<u128>::Some(p));
                        o.lemma_anc_add(id, j, 1nat);
                        assert(o.anc(cur, 1nat) == Option::<u128>::Some(p));
                        assert(o.anc(id, (j + 1) as nat) == Option::<u128>::Some(p));
                        if j + 1 >= k0 {
                            o.lemma_anc_add(id, k0, ((j + 1) - k0) as nat);
                            assert(false);
                        }
                    }
                    let pi = self.index_of(p);
                    if self.transforms[pi].dirty() {
                        chain.push(p);
                        cur = p;
                        proof {
                            j = j + 1;
                        }
                    } else {
                        base = self.transforms[pi].world_matrix();
                        climbing = false;
                        proof {
                            self.lemma_has_node(p);
                            assert(base == o.node(p).spec_world_matrix());
                        }
                    }
                },
            }
        }
        proof {
            assert forall|t1: int, t2: int|
                0 <= t1 < t2 < chain@.len() implies chain@[t1] != chain@[t2] by {
                if chain@[t1] == chain@[t2] {
                    o.lemma_anc_add(id, t1 as nat, (t2 - t1) as nat);
                    o.lemma_cycle_no_escape(chain@[t1], (t2 - t1) as nat);
                    let kx = choose|k: nat|
                        o.anc(chain@[t1], k) == Option::<u128>::None;
                }
            }
            assert forall|t: int|
                0 <= t < chain@.len() - 1 implies o.node(#[trigger] chain@[t]).spec_parent()
                == Option::Some(chain@[t + 1]) by {
                o.lemma_anc_add(id, t as nat, 1nat);
                assert(o.anc(chain@[t], 1nat) == Option::Some(chain@[t + 1]));
                match o.node(chain@[t]).spec_parent() {
                    Option::None => {
                        assert(false);
                    },
                    Option::Some(z) => {
                        assert(o.anc(z, 0nat) == o.anc(chain@[t], 1nat));
                    },
                }
            }
        }
        let mut idx: usize = chain.len();
        while idx > 0
            invariant
                o.wf(),
                o.has(id),
                chain@.len() >= 1,
                idx <= chain@.len(),
                chain@[0] == id,
                forall|t: int|
                    0 <= t < chain@.len() ==> o.anc(id, t as nat) == Option::Some(
                        #[trigger] chain@[t],
                    ),
                forall|t: int|
                    0 <= t < chain@.len() ==> o.has(#[trigger] chain@[t]) && o.node(
                        chain@[t],
                    ).spec_dirty(),
                forall|t1: int, t2: int|
                    0 <= t1 < t2 < chain@.len() ==> chain@[t1] != chain@[t2],
                forall|t: int|
                    0 <= t < chain@.len() - 1 ==> o.node(#[trigger] chain@[t]).spec_parent()
                        == Option::Some(chain@[t + 1]),
                (match o.node(chain@[chain@.len() - 1]).spec_parent() {
                    Option::None => true,
                    Option::Some(p) => o.has(p) && !o.node(p).spec_dirty(),
                }),
                idx == chain@.len() ==> (match o.node(
                    chain@[chain@.len() - 1],
                ).spec_parent() {
                    Option::None => base == math::mat_identity_of(),
                    Option::Some(p) => base == o.node(p).spec_world_matrix(),
                }),
                idx < chain@.len() ==> base == self.node(chain@[idx as int]).spec_world_matrix(),
                forall|t: int|
                    idx <= t < chain@.len() ==> self.resolved_against_parent(
                        #[trigger] chain@[t],
                    ),
                self.s().len() == o.s().len(),
                self.ids_distinct(),
                forall|x: u128| #[trigger] self.has(x) <==> o.has(x),
                forall|x: u128|
                    #[trigger] o.has(x) ==> same_links(self.node(x), o.node(x)) && same_pose(
                        self.node(x),
                        o.node(x),
                    ),
                forall|x: u128|
                    #[trigger] o.has(x) && !chain@.contains(x) ==> self.node(x).spec_dirty()
                        == o.node(x).spec_dirty() && same_cache(self.node(x), o.node(x)),
                forall|t: int|
                    0 <= t < idx ==> self.node(#[trigger] chain@[t]).spec_dirty() && same_cache(
                        self.node(chain@[t]),
                        o.node(chain@[t]),
                    ),
                forall|t: int|
                    idx <= t < chain@.len() ==> !self.node(#[trigger] chain@[t]).spec_dirty(),
            decreases idx,
        {
            idx -= 1;
            let x = chain[idx];
            let xi = self.index_of(x);
            proof {
                self.lemma_has_node(x);
                assert(chain@.contains(x));
            }
            let rot = math::quat_to_matrix(self.transforms[xi].orientation());
            let tr = math::mat_translation(self.transforms[xi].position());
            let local = math::mat_mul(math::mat_inverse(rot), tr);
            let world = math::mat_mul(local, base);
            let glw = math::mat_transpose(world);
            let ghost prev = *self;
            let tm = &mut self.transforms[xi];
            tm.store_world(world, glw);
            let ghost parent_base = base;
            base = world;
            proof {
                let tn = self.s()[xi as int];
                assert(self.s() == prev.s().update(xi as int, tn));
                TransformMap::lemma_update(prev, *self, xi as int, tn);
                assert(tn.spec_id() == x);
                assert(self.node(x) == tn);
                assert(same_pose(self.node(x), prev.node(x)));
                assert(self.node(x).spec_world_matrix() == math::mat_mul_of(
                    spec_local_matrix(self.node(x)),
                    parent_base,
                ));
                assert(idx + 1 < chain@.len() ==> parent_base == prev.node(
                    chain@[idx + 1],
                ).spec_world_matrix());
                TransformMap::lemma_resolve_step(o, prev, *self, chain@, idx as int, parent_base);
            }
        }
        let fi = self.index_of(id);
        let r = self.transforms[fi].world_matrix();
        proof {
            self.lemma_has_node(id);
            let f = *self;
            // A node is on the queried chain exactly if it is the node or an
            // ancestor that was stale.
            assert forall|x: u128| #[trigger] o.has(x) implies f.node(x).spec_dirty() == (o.node(
                x,
            ).spec_dirty() && !o.in_subtree(id, x)) by {
                if chain@.contains(x) {
                    let t = choose|t: int| 0 <= t < chain@.len() && chain@[t] == x;
                    assert(!f.node(x).spec_dirty());
                    assert(o.anc(id, t as nat) == Option::Some(x));
                    assert(o.in_subtree(id, x));
                } else {
                    assert(f.node(x).spec_dirty() == o.node(x).spec_dirty());
                    if o.in_subtree(id, x) && o.node(x).spec_dirty() {
                        let k = choose|k: nat| o.anc(id, k) == Option::<u128>::Some(x);
                        if k < chain@.len() {
                            assert(chain@[k as int] == x);
                        } else {
                            let top = chain@[chain@.len() - 1];
                            match o.node(top).spec_parent() {
                                Option::None => {
                                    o.lemma_anc_add(
                                        id,
                                        (chain@.len() - 1) as nat,
                                        (k - (chain@.len() - 1)) as nat,
                                    );
                                    assert(o.anc(top, (k - (chain@.len() - 1)) as nat)
                                        == Option::Some(x));
                                },
                                Option::Some(p) => {
                                    o.lemma_anc_add(
                                        id,
                                        (chain@.len() - 1) as nat,
                                        (k - (chain@.len() - 1)) as nat,
                                    );
                                    assert(o.anc(top, (k - (chain@.len() - 1)) as nat)
                                        == Option::Some(x));
                                    assert(o.anc(p, 0nat) == Option::<u128>::Some(p));
                                    assert(o.anc(top, 1nat) == Option::<u128>::Some(p));
                                    o.lemma_anc_add(top, 1nat, (k - chain@.len()) as nat);
                                    assert(o.anc(p, (k - chain@.len()) as nat)
                                        == Option::Some(x));
                                    o.lemma_dirty_down(p, x, (k - chain@.len()) as nat);
                                },
                            }
                        }
                    }
                }
            }
            // Invariant pieces.
            assert(f.links_closed()) by {
                assert forall|x: u128| #[trigger] f.has(x) implies f.links_ok(x) by {
                    assert(o.has(x));
                    assert(o.links_ok(x));
                    assert(same_links(f.node(x), o.node(x)));
                    match f.node(x).spec_parent() {
                        Option::Some(z) => {
                            assert(same_links(f.node(z), o.node(z)));
                        },
                        Option::None => {},
                    }
                    assert forall|c: u128|
                        #[trigger] f.node(x).spec_children().contains(c) implies f.has(c)
                        && f.node(c).spec_parent() == Option::Some(x) by {
                        assert(o.node(x).spec_children().contains(c));
                        assert(o.has(c));
                        assert(same_links(f.node(c), o.node(c)));
                    }
                }
            }
            assert(f.dirty_propagated()) by {
                assert forall|c: u128| #[trigger] f.has(c) implies match f.node(
                    c,
                ).spec_parent() {
                    Option::Some(z) => f.node(z).spec_dirty() ==> f.node(c).spec_dirty(),
                    Option::None => true,
                } by {
                    assert(o.has(c));
                    assert(o.links_ok(c));
                    match f.node(c).spec_parent() {
                        Option::Some(z) => {
                            assert(o.node(c).spec_parent() == Option::Some(z));
                            if f.node(z).spec_dirty() {
                                assert(o.node(z).spec_dirty());
                                assert(o.node(c).spec_dirty());
                                if chain@.contains(c) {
                                    let t = choose|t: int|
                                        0 <= t < chain@.len() && chain@[t] == c;
                                    if t < chain@.len() - 1 {
                                        o.lemma_anc_add(id, t as nat, 1nat);
                                        assert(o.anc(c, 1nat) == Option::Some(
                                            chain@[t + 1],
                                        ));
                                        assert(o.anc(z, 0nat) == o.anc(c, 1nat));
                                        assert(z == chain@[t + 1]);
                                        assert(!f.node(z).spec_dirty());
                                    } else {
                                        assert(c == chain@[chain@.len() - 1]);
                                        assert(!o.node(z).spec_dirty());
                                    }
                                }
                            }
                        },
                        Option::None => {},
                    }
                }
            }
            assert(f.acyclic()) by {
                assert forall|x: u128| #[trigger] f.has(x) implies exists|k: nat|
                    f.anc(x, k) == Option::<u128>::None by {
                    assert(o.has(x));
                    let kx = choose|k: nat| o.anc(x, k) == Option::<u128>::None;
                    TransformMap::lemma_anc_preserved(o, f, x, kx);
                    assert(f.anc(x, kx) == Option::<u128>::None);
                }
            }
            assert(f.ids_distinct() && f.links_closed() && f.dirty_propagated() && f.acyclic());
            assert forall|x: u128|
                #[trigger] o.has(x) && o.in_subtree(id, x) && o.node(x).spec_dirty() implies
                f.resolved_against_parent(x) by {
                let k = choose|k: nat| o.anc(id, k) == Option::<u128>::Some(x);
                if k < chain@.len() {
                    assert(chain@[k as int] == x);
                } else {
                    let top = chain@[chain@.len() - 1];
                    match o.node(top).spec_parent() {
                        Option::None => {
                            o.lemma_anc_add(
                                id,
                                (chain@.len() - 1) as nat,
                                (k - (chain@.len() - 1)) as nat,
                            );
                            assert(o.anc(top, (k - (chain@.len() - 1)) as nat)
                                == Option::Some(x));
                            assert(false);
                        },
                        Option::Some(p) => {
                            o.lemma_anc_add(
                                id,
                                (chain@.len() - 1) as nat,
                                (k - (chain@.len() - 1)) as nat,
                            );
                            assert(o.anc(top, (k - (chain@.len() - 1)) as nat)
                                == Option::Some(x));
                            assert(o.anc(p, 0nat) == Option::<u128>::Some(p));
                            assert(o.anc(top, 1nat) == Option::<u128>::Some(p));
                            o.lemma_anc_add(top, 1nat, (k - chain@.len()) as nat);
                            assert(o.anc(p, (k - chain@.len()) as nat) == Option::Some(x));
                            o.lemma_dirty_down(p, x, (k - chain@.len()) as nat);
                            assert(false);
                        },
                    }
                }
            }
        }
        r
    }

    /// Recomputes the node's cached world matrix unconditionally, resolving
    /// the parent chain lazily first.  The staleness flags end exactly as a
    /// lazy query would leave them.
    pub fn update_world_matrix(&mut self, id: u128)
        requires
            old(self).wf(),
            old(self).has(id),
        ensures
            final(self).wf(),
            final(self).s().len() == old(self).s().len(),
            forall|x: u128| #[trigger] final(self).has(x) <==> old(self).has(x),
            forall|x: u128|
                #[trigger] old(self).has(x) ==> same_links(final(self).node(x), old(self).node(x))
                    && same_pose(final(self).node(x), old(self).node(x)),
            forall|x: u128|
                #[trigger] old(self).has(x) ==> final(self).node(x).spec_dirty() == (old(
                    self,
                ).node(x).spec_dirty() && !old(self).in_subtree(id, x)),
            !final(self).node(id).spec_dirty(),
            final(self).resolved_against_parent(id),
            forall|x: u128|
                #[trigger] old(self).has(x) && x != id && old(self).in_subtree(id, x) && old(
                    self,
                ).node(x).spec_dirty() ==> final(self).resolved_against_parent(x),
    {
        let ghost o = *self;
        let i0 = self.index_of(id);
        let par = self.transforms[i0].parent();
        proof {
            self.lemma_has_node(id);
        }
        let parent_matrix = match par {
            Option::Some(p) => {
                proof {
                    assert(o.links_ok(id));
                }
                self.world_matrix(p)
            },
            Option::None => math::mat_identity(),
        };
        let ghost m1 = *self;
        let i1 = self.index_of(id);
        let rot = math::quat_to_matrix(self.transforms[i1].orientation());
        let tr = math::mat_translation(self.transforms[i1].position());
        let local = math::mat_mul(math::mat_inverse(rot), tr);
        let world = math::mat_mul(local, parent_matrix);
        let glw = math::mat_transpose(world);
        let tm = &mut self.transforms[i1];
        tm.store_world(world, glw);
        proof {
            let tn = self.s()[i1 as int];
            assert(self.s() == m1.s().update(i1 as int, tn));
            TransformMap::lemma_update(m1, *self, i1 as int, tn);
            assert(self.node(id) == tn);
            let f = *self;
            assert forall|x: u128| #[trigger] o.has(x) implies same_links(
                f.node(x),
                o.node(x),
            ) && same_pose(f.node(x), o.node(x)) by {
                assert(m1.has(x));
                if x != id {
                    assert(f.node(x) == m1.node(x));
                }
            }
            // The chain of the node is itself, then its parent's chain.
            assert forall|x: u128| #[trigger] o.has(x) implies f.node(x).spec_dirty() == (o.node(
                x,
            ).spec_dirty() && !o.in_subtree(id, x)) by {
                assert(m1.has(x));
                assert(o.anc(id, 0nat) == Option::Some(id));
                match par {
                    Option::Some(p) => {
                        if x == id {
                            assert(o.in_subtree(id, id));
                        } else {
                            assert(f.node(x) == m1.node(x));
                            assert(m1.node(x).spec_dirty() == (o.node(x).spec_dirty()
                                && !o.in_subtree(p, x)));
                            if o.in_subtree(id, x) {
                                let k = choose|k: nat|
                                    o.anc(id, k) == Option::<u128>::Some(x);
                                assert(k >= 1);
                                assert(o.anc(id, k) == o.anc(p, (k - 1) as nat));
                                assert(o.in_subtree(p, x));
                            }
                            if o.in_subtree(p, x) {
                                let k = choose|k: nat|
                                    o.anc(p, k) == Option::<u128>::Some(x);
                                assert(o.anc(id, (1 + k) as nat) == o.anc(p, k)) by {
                                    o.lemma_anc_add(id, 1nat, k);
                                    assert(o.anc(p, 0nat) == Option::Some(p));
                                    assert(o.anc(id, 1nat) == Option::Some(p));
                                }
                                assert(o.in_subtree(id, x));
                            }
                        }
                    },
                    Option::None => {
                        if x == id {
                            assert(o.in_subtree(id, id));
                        } else {
                            assert(f.node(x) == m1.node(x));
                            assert(m1.node(x) == o.node(x));
                            if o.in_subtree(id, x) {
                                let k = choose|k: nat|
                                    o.anc(id, k) == Option::<u128>::Some(x);
                                assert(k >= 1);
                                assert(o.anc(id, k) == Option::<u128>::None);
                            }
                        }
                    },
                }
            }
            // Invariant restoration.
            assert(f.links_closed()) by {
                assert forall|x: u128| #[trigger] f.has(x) implies f.links_ok(x) by {
                    assert(o.has(x));
                    assert(o.links_ok(x));
                    assert(same_links(f.node(x), o.node(x)));
                    match f.node(x).spec_parent() {
                        Option::Some(z) => {
                            assert(same_links(f.node(z), o.node(z)));
                        },
                        Option::None => {},
                    }
                    assert forall|c: u128|
                        #[trigger] f.node(x).spec_children().contains(c) implies f.has(c)
                        && f.node(c).spec_parent() == Option::Some(x) by {
                        assert(o.node(x).spec_children().contains(c));
                        assert(o.has(c));
                        assert(same_links(f.node(c), o.node(c)));
                    }
                }
            }
            assert(f.dirty_propagated()) by {
                assert forall|c: u128| #[trigger] f.has(c) implies match f.node(
                    c,
                ).spec_parent() {
                    Option::Some(z) => f.node(z).spec_dirty() ==> f.node(c).spec_dirty(),
                    Option::None => true,
                } by {
                    assert(o.has(c));
                    assert(o.links_ok(c));
                    match f.node(c).spec_parent() {
                        Option::Some(z) => {
                            if f.node(z).spec_dirty() {
                                assert(o.node(z).spec_dirty());
                                assert(o.node(c).spec_dirty());
                                assert(o.anc(c, 1nat) == Option::<u128>::Some(z)) by {
                                    assert(o.node(c).spec_parent() == Option::Some(z));
                                    assert(o.anc(z, 0nat) == Option::Some(z));
                                }
                                if o.in_subtree(id, c) {
                                    let k = choose|k: nat|
                                        o.anc(id, k) == Option::<u128>::Some(c);
                                    o.lemma_anc_add(id, k, 1nat);
                                    assert(o.anc(id, (k + 1) as nat) == Option::Some(z));
                                    assert(o.in_subtree(id, z));
                                }
                            }
                        },
                        Option::None => {},
                    }
                }
            }
            assert(f.acyclic()) by {
                assert forall|x: u128| #[trigger] f.has(x) implies exists|k: nat|
                    f.anc(x, k) == Option::<u128>::None by {
                    assert(o.has(x));
                    let kx = choose|k: nat| o.anc(x, k) == Option::<u128>::None;
                    TransformMap::lemma_anc_preserved(o, f, x, kx);
                    assert(f.anc(x, kx) == Option::<u128>::None);
                }
            }
            // The recomputed node holds the freshly composed product.
            assert(f.resolved_against_parent(id)) by {
                assert(same_pose(f.node(id), m1.node(id)));
                assert(f.node(id).spec_parent() == par);
                match par {
                    Option::Some(p) => {
                        assert(o.links_ok(id));
                        assert(p != id);
                        assert(m1.has(p));
                        assert(f.node(p) == m1.node(p));
                        assert(parent_matrix == m1.node(p).spec_world_matrix());
                    },
                    Option::None => {
                        assert(parent_matrix == math::mat_identity_of());
                    },
                }
            }
            // The lazily resolved ancestors keep their composed products.
            assert forall|x: u128|
                #[trigger] o.has(x) && x != id && o.in_subtree(id, x) && o.node(
                x,
            ).spec_dirty() implies f.resolved_against_parent(x) by {
                match par {
                    Option::Some(p) => {
                        let k = choose|k: nat| o.anc(id, k) == Option::<u128>::Some(x);
                        assert(k >= 1);
                        assert(o.anc(id, k) == o.anc(p, (k - 1) as nat));
                        assert(o.in_subtree(p, x));
                        assert(m1.resolved_against_parent(x));
                        assert(m1.has(x));
                        assert(f.node(x) == m1.node(x));
                        match m1.node(x).spec_parent() {
                            Option::Some(z) => {
                                assert(z != id) by {
                                    if z == id {
                                        assert(o.node(x).spec_parent() == Option::Some(id));
                                        assert(o.anc(id, 0nat) == Option::<u128>::Some(id));
                                        assert(o.anc(x, 1nat) == Option::<u128>::Some(id));
                                        o.lemma_anc_add(id, k, 1nat);
                                        assert(o.anc(id, (k + 1) as nat)
                                            == Option::<u128>::Some(id));
                                        o.lemma_cycle_no_escape(id, (k + 1) as nat);
                                        let kz = choose|kz: nat|
                                            o.anc(id, kz) == Option::<u128>::None;
                                        assert(false);
                                    }
                                }
                                assert(m1.has(z)) by {
                                    assert(o.links_ok(x));
                                }
                                assert(f.node(z) == m1.node(z));
                            },
                            Option::None => {},
                        }
                    },
                    Option::None => {
                        assert(o.anc(id, 1nat) == Option::<u128>::None);
                        let k = choose|k: nat| o.anc(id, k) == Option::<u128>::Some(x);
                        assert(k >= 1);
                        o.lemma_anc_add(id, 1nat, (k - 1) as nat);
                        assert(false);
                    },
                }
            }
        }
    }

    /// Resolves and returns the node's transposed world matrix, for a
    /// column-major consumer; caching behaves exactly as for `world_matrix`.
    pub fn gl_world_matrix(&mut self, id: u128) -> (r: glam::Mat4)
        requires
            old(self).wf(),
            old(self).has(id),
        ensures
            final(self).wf(),
            final(self).s().len() == old(self).s().len(),
            forall|x: u128| #[trigger] final(self).has(x) <==> old(self).has(x),
            forall|x: u128|
                #[trigger] old(self).has(x) ==> same_links(final(self).node(x), old(self).node(x))
                    && same_pose(final(self).node(x), old(self).node(x)),
            forall|x: u128|
                #[trigger] old(self).has(x) ==> final(self).node(x).spec_dirty() == (old(
                    self,
                ).node(x).spec_dirty() && !old(self).in_subtree(id, x)),
            forall|x: u128|
                #[trigger] old(self).has(x) && old(self).in_subtree(id, x) && old(self).node(
                    x,
                ).spec_dirty() ==> final(self).resolved_against_parent(x),
            !final(self).node(id).spec_dirty(),
            r == final(self).node(id).spec_gl_world_matrix(),
            r == math::mat_transpose_of(final(self).node(id).spec_world_matrix()),
            !old(self).node(id).spec_dirty() ==> *final(self) == *old(self),
    {
        let ghost o = *self;
        let i0 = self.index_of(id);
        if !self.transforms[i0].dirty() {
            let r = self.transforms[i0].gl_world_matrix();
            proof {
                self.lemma_has_node(id);
                assert forall|x: u128|
                    #[trigger] o.has(x) && o.in_subtree(id, x) implies !o.node(
                    x,
                ).spec_dirty() by {
                    if o.node(x).spec_dirty() {
                        let k = choose|k: nat| o.anc(id, k) == Option::<u128>::Some(x);
                        o.lemma_dirty_down(id, x, k);
                    }
                }
            }
            return r;
        }
        let _world = self.world_matrix(id);
        proof {
            assert(o.anc(id, 0nat) == Option::<u128>::Some(id));
            assert(o.in_subtree(id, id));
            assert(self.resolved_against_parent(id));
        }
        let i1 = self.index_of(id);
        self.transforms[i1].gl_world_matrix()
    }

    /// The world-space position of the node's origin: the origin transformed
    /// by the resolved world matrix.
    pub fn world_position(&mut self, id: u128) -> (r: glam::Vec3)
        requires
            old(self).wf(),
            old(self).has(id),
        ensures
            final(self).wf(),
            final(self).s().len() == old(self).s().len(),
            forall|x: u128| #[trigger] final(self).has(x) <==> old(self).has(x),
            forall|x: u128|
                #[trigger] old(self).has(x) ==> same_links(final(self).node(x), old(self).node(x))
                    && same_pose(final(self).node(x), old(self).node(x)),
            forall|x: u128|
                #[trigger] old(self).has(x) ==> final(self).node(x).spec_dirty() == (old(
                    self,
                ).node(x).spec_dirty() && !old(self).in_subtree(id, x)),
            r == math::vec3_transform_of(
                math::vec3_zero_of(),
                final(self).node(id).spec_world_matrix(),
            ),
    {
        let m = self.world_matrix(id);
        math::vec3_transform(math::vec3_zero(), m)
    }

    /// The world-space point one forward unit ahead of the node: used by
    /// camera consumers as a look target.
    pub fn world_target_position(&mut self, id: u128) -> (r: glam::Vec3)
        requires
            old(self).wf(),
            old(self).has(id),
        ensures
            final(self).wf(),
            final(self).s().len() == old(self).s().len(),
            forall|x: u128| #[trigger] final(self).has(x) <==> old(self).has(x),
            forall|x: u128|
                #[trigger] old(self).has(x) ==> same_links(final(self).node(x), old(self).node(x))
                    && same_pose(final(self).node(x), old(self).node(x)),
            forall|x: u128|
                #[trigger] old(self).has(x) ==> final(self).node(x).spec_dirty() == (old(
                    self,
                ).node(x).spec_dirty() && !old(self).in_subtree(id, x)),
            r == math::vec3_transform_of(
                math::vec3_forward_of(),
                final(self).node(id).spec_world_matrix(),
            ),
    {
        let m = self.world_matrix(id);
        math::vec3_transform(math::vec3_forward(), m)
    }

    /// Carries a point from world space into the node's local space through
    /// the inverse of the resolved world matrix.
    pub fn local_position(&mut self, id: u128, in_position: glam::Vec3) -> (r: glam::Vec3)
        requires
            old(self).wf(),
            old(self).has(id),
        ensures
            final(self).wf(),
            final(self).s().len() == old(self).s().len(),
            forall|x: u128| #[trigger] final(self).has(x) <==> old(self).has(x),
            forall|x: u128|
                #[trigger] old(self).has(x) ==> same_links(final(self).node(x), old(self).node(x))
                    && same_pose(final(self).node(x), old(self).node(x)),
            forall|x: u128|
                #[trigger] old(self).has(x) ==> final(self).node(x).spec_dirty() == (old(
                    self,
                ).node(x).spec_dirty() && !old(self).in_subtree(id, x)),
            r == math::vec3_transform_of(
                in_position,
                math::mat_inverse_of(final(self).node(id).spec_world_matrix()),
            ),
    {
        let m = self.world_matrix(id);
        math::vec3_transform(in_position, math::mat_inverse(m))
    }

    /// Monotonic propagation: under the store invariant, staleness is closed
    /// downward over whole subtrees.  Whenever a node on some node's ancestor
    /// chain is dirty, that node is dirty too — equivalently, a clean node's
    /// every ancestor is clean, so a cached matrix is never read below a
    /// stale ancestor.
    pub proof fn lemma_dirty_closed_downward(m: TransformMap, x: u128, root: u128)
        requires
            m.wf(),
            m.in_subtree(x, root),
            m.node(root).spec_dirty(),
        ensures
            m.node(x).spec_dirty(),
    {
        let k = choose|k: nat| m.anc(x, k) == Option::<u128>::Some(root);
        m.lemma_dirty_down(x, root, k);
    }

    /// The forest invariant: under the store invariant no node is its own
    /// proper ancestor.  The only way a node appears on its own ancestor
    /// chain is as the chain's first entry.
    pub proof fn lemma_no_cycles(m: TransformMap, x: u128, k: nat)
        requires
            m.wf(),
            m.has(x),
            m.anc(x, k) == Option::<u128>::Some(x),
        ensures
            k == 0,
    {
        if k >= 1 {
            m.lemma_cycle_no_escape(x, k);
            let k0 = choose|k2: nat| m.anc(x, k2) == Option::<u128>::None;
            assert(false);
        }
    }

    /// Well-formedness includes the registry carrying pairwise distinct
    /// identifiers, so any caller holding `wf` may call the getters.
    pub proof fn lemma_wf_ids_distinct(m: TransformMap)
        requires
            m.wf(),
        ensures
            m.ids_distinct(),
    {
    }

    /// Every registered node lies in its own subtree.
    pub proof fn lemma_in_subtree_self(m: TransformMap, x: u128)
        requires
            m.has(x),
        ensures
            m.in_subtree(x, x),
    {
        assert(m.anc(x, 0nat) == Option::<u128>::Some(x));
    }

    /// A parent link puts the child in the parent's subtree.
    pub proof fn lemma_in_subtree_parent(m: TransformMap, c: u128, p: u128)
        requires
            m.has(c),
            m.has(p),
            m.node(c).spec_parent() == Option::<u128>::Some(p),
        ensures
            m.in_subtree(c, p),
    {
        assert(m.anc(p, 0nat) == Option::<u128>::Some(p));
        assert(m.anc(c, 1nat) == Option::<u128>::Some(p));
    }

    /// A parent link extends every chain: whatever subtree the parent lies
    /// in, the child lies in too.
    pub proof fn lemma_in_subtree_step(m: TransformMap, c: u128, p: u128, root: u128)
        requires
            m.has(c),
            m.node(c).spec_parent() == Option::<u128>::Some(p),
            m.in_subtree(p, root),
        ensures
            m.in_subtree(c, root),
    {
        let k = choose|k: nat| m.anc(p, k) == Option::<u128>::Some(root);
        assert(m.anc(c, (k + 1) as nat) == m.anc(p, k));
    }

    /// The three vectors a camera consumer reads each frame, from one
    /// resolution of the node's world matrix: the world position of the
    /// node's origin, the look target one forward unit ahead, and the up
    /// direction as the transformed up point minus the target.
    pub fn camera_vectors(&mut self, id: u128) -> (r: (glam::Vec3, glam::Vec3, glam::Vec3))
        requires
            old(self).wf(),
            old(self).has(id),
        ensures
            final(self).wf(),
            final(self).s().len() == old(self).s().len(),
            forall|x: u128| #[trigger] final(self).has(x) <==> old(self).has(x),
            forall|x: u128|
                #[trigger] old(self).has(x) ==> same_links(final(self).node(x), old(self).node(x))
                    && same_pose(final(self).node(x), old(self).node(x)),
            forall|x: u128|
                #[trigger] old(self).has(x) ==> final(self).node(x).spec_dirty() == (old(
                    self,
                ).node(x).spec_dirty() && !old(self).in_subtree(id, x)),
            r.0 == math::vec3_transform_of(
                math::vec3_zero_of(),
                final(self).node(id).spec_world_matrix(),
            ),
            r.1 == math::vec3_transform_of(
                math::vec3_forward_of(),
                final(self).node(id).spec_world_matrix(),
            ),
            r.2 == math::vec3_sub_of(
                math::vec3_transform_of(
                    math::vec3_up_of(),
                    final(self).node(id).spec_world_matrix(),
                ),
                r.1,
            ),
    {
        let world = self.world_matrix(id);
        let position = math::vec3_transform(math::vec3_zero(), world);
        let target = math::vec3_transform(math::vec3_forward(), world);
        let up = math::vec3_sub(math::vec3_transform(math::vec3_up(), world), target);
        (position, target, up)
    }

    /// The outcome a hierarchy edit is owed: unknown identifiers are
    /// refused, then self-parenting, then an edit whose requested parent
    /// descends from the node being moved.
    pub open spec fn reparent_check(self, node: u128, new_parent: Option<u128>) -> Result<
        (),
        TransformError,
    > {
        match new_parent {
            Option::None => {
                if !self.has(node) {
                    Result::Err(TransformError::NotFound)
                } else {
                    Result::Ok(())
                }
            },
            Option::Some(p) => {
                if !self.has(node) || !self.has(p) {
                    Result::Err(TransformError::NotFound)
                } else if p == node {
                    Result::Err(TransformError::SelfParent)
                } else if self.in_subtree(p, node) {
                    Result::Err(TransformError::CycleDetected)
                } else {
                    Result::Ok(())
                }
            },
        }
    }

    /// Moves a node under a new parent (or to the roots, for `None`).
    ///
    /// Asking for the parent the node already has is a no-op that leaves the
    /// store untouched.  A rejected edit leaves the store untouched too.  An
    /// accepted edit unlinks the node from its old parent's children, links
    /// it under the new parent, and marks the node's entire subtree stale;
    /// no position, orientation or cached matrix changes.
    pub fn reparent(&mut self, node: u128, new_parent: Option<u128>) -> (r: Result<
        (),
        TransformError,
    >)
        requires
            old(self).wf(),
        ensures
            final(self).wf(),
            r == old(self).reparent_check(node, new_parent),
            r is Err ==> *final(self) == *old(self),
            (r is Ok && new_parent == old(self).node(node).spec_parent()) ==> *final(self)
                == *old(self),
            r is Ok ==> final(self).s().len() == old(self).s().len() && (forall|x: u128|
                #[trigger] final(self).has(x) <==> old(self).has(x)),
            (r is Ok && new_parent != old(self).node(node).spec_parent()) ==> {
                &&& forall|x: u128|
                    #[trigger] old(self).has(x) ==> final(self).node(x).spec_id() == old(
                        self,
                    ).node(x).spec_id() && same_pose(final(self).node(x), old(self).node(x))
                        && same_cache(final(self).node(x), old(self).node(x))
                &&& final(self).node(node).spec_parent() == new_parent
                &&& forall|x: u128|
                    #[trigger] old(self).has(x) && x != node ==> final(self).node(
                        x,
                    ).spec_parent() == old(self).node(x).spec_parent()
                &&& forall|x: u128|
                    #[trigger] old(self).has(x) ==> final(self).node(x).spec_dirty() == (old(
                        self,
                    ).node(x).spec_dirty() || old(self).in_subtree(x, node))
                &&& forall|x: u128|
                    #[trigger] old(self).has(x) && Option::Some(x) != old(self).node(
                        node,
                    ).spec_parent() && Option::Some(x) != new_parent ==> final(self).node(
                        x,
                    ).spec_children() == old(self).node(x).spec_children()
                &&& (old(self).node(node).spec_parent() matches Option::Some(q) ==> forall|
                    c: u128,
                |
                    #[trigger] final(self).node(q).spec_children().contains(c) <==> (old(
                        self,
                    ).node(q).spec_children().contains(c) && c != node))
                &&& (new_parent matches Option::Some(p) ==> forall|c: u128|
                    #[trigger] final(self).node(p).spec_children().contains(c) <==> (old(
                        self,
                    ).node(p).spec_children().contains(c) || c == node))
            },
    {
        let ghost o = *self;
        if !self.contains(node) {
            return Result::Err(TransformError::NotFound);
        }
        match new_parent {
            Option::Some(p) => {
                if !self.contains(p) {
                    return Result::Err(TransformError::NotFound);
                }
            },
            Option::None => {},
        }
        let ni = self.index_of(node);
        let cur = self.transforms[ni].parent();
        proof {
            self.lemma_has_node(node);
            assert(cur == o.node(node).spec_parent());
        }
        let same = match (cur, new_parent) {
            (Option::None, Option::None) => true,
            (Option::Some(a), Option::Some(b)) => a == b,
            _ => false,
        };
        if same {
            proof {
                assert(o.links_ok(node));
                match new_parent {
                    Option::Some(p) => {
                        assert(p != node);
                        if o.in_subtree(p, node) {
                            let k = choose|k: nat|
                                o.anc(p, k) == Option::<u128>::Some(node);
                            assert(o.anc(p, 0nat) == Option::<u128>::Some(p));
                            assert(o.anc(node, 1nat) == Option::<u128>::Some(p));
                            o.lemma_anc_add(node, 1nat, k);
                            o.lemma_cycle_no_escape(node, (1 + k) as nat);
                            let k0 = choose|k2: nat|
                                o.anc(node, k2) == Option::<u128>::None;
                            assert(false);
                        }
                    },
                    Option::None => {},
                }
            }
            return Result::Ok(());
        }
        match new_parent {
            Option::Some(p) => {
                if p == node {
                    return Result::Err(TransformError::SelfParent);
                }
                if self.is_ancestor_or_self(p, node) {
                    return Result::Err(TransformError::CycleDetected);
                }
            },
            Option::None => {},
        }
        proof {
            assert(o.reparent_check(node, new_parent) is Ok);
        }
        self.set_dirty(node);
        let ghost m1 = *self;
        proof {
            assert(m1.node(node).spec_dirty());
            assert(same_links(m1.node(node), o.node(node)));
        }
        match cur {
            Option::Some(q) => {
                let qi = self.index_of(q);
                proof {
                    assert(same_links(m1.node(q), o.node(q)));
                    assert(o.links_ok(q));
                    assert(children_distinct(m1.node(q).spec_children()));
                    assert(m1.s()[qi as int] == m1.node(q));
                }
                let t = &mut self.transforms[qi];
                t.remove_child(node);
                proof {
                    let tn = self.s()[qi as int];
                    assert(self.s() == m1.s().update(qi as int, tn));
                    TransformMap::lemma_update(m1, *self, qi as int, tn);
                }
            },
            Option::None => {},
        }
        let ghost m2 = *self;
        let ni2 = self.index_of(node);
        let t = &mut self.transforms[ni2];
        t.set_parent(new_parent);
        proof {
            let tn = self.s()[ni2 as int];
            assert(self.s() == m2.s().update(ni2 as int, tn));
            TransformMap::lemma_update(m2, *self, ni2 as int, tn);
        }
        let ghost m3 = *self;
        match new_parent {
            Option::Some(p) => {
                let pi = self.index_of(p);
                let t = &mut self.transforms[pi];
                t.add_child(node);
                proof {
                    let tn = self.s()[pi as int];
                    assert(self.s() == m3.s().update(pi as int, tn));
                    TransformMap::lemma_update(m3, *self, pi as int, tn);
                }
            },
            Option::None => {},
        }
        proof {
            let f = *self;
            let op = o.node(node).spec_parent();
            assert(o.links_ok(node));
            assert forall|x: u128| #[trigger] f.has(x) <==> o.has(x) by {}
            assert(f.s().len() == o.s().len());
            // Where each record ended up, node by node.
            // How each record travelled through the three link edits.
            assert forall|x: u128| #[trigger] o.has(x) implies m1.has(x) && m2.has(x) && m3.has(
                x,
            ) && f.has(x) && f.node(x).spec_id() == o.node(x).spec_id() && same_pose(
                f.node(x),
                o.node(x),
            ) && same_cache(f.node(x), o.node(x)) && f.node(x).spec_dirty() == m1.node(
                x,
            ).spec_dirty() && (x != node ==> f.node(x).spec_parent() == o.node(x).spec_parent())
                && (x == node ==> f.node(x).spec_parent() == new_parent) && ((Option::Some(x)
                != op && Option::Some(x) != new_parent) ==> f.node(x).spec_children() == o.node(
                x,
            ).spec_children()) by {
                assert(m1.has(x));
                assert(same_links(m1.node(x), o.node(x)) && same_pose(m1.node(x), o.node(x))
                    && same_cache(m1.node(x), o.node(x)));
                let n1 = m1.node(x);
                let n2 = m2.node(x);
                match cur {
                    Option::Some(q) => {
                        if x == q {
                            assert(n2.spec_id() == n1.spec_id() && n2.spec_parent()
                                == n1.spec_parent() && n2.spec_dirty() == n1.spec_dirty()
                                && same_pose(n2, n1) && same_cache(n2, n1));
                        } else {
                            assert(n2 == n1);
                        }
                    },
                    Option::None => {
                        assert(n2 == n1);
                    },
                }
                assert(m2.has(x));
                let n3 = m3.node(x);
                if x == node {
                    assert(n3.spec_id() == n2.spec_id() && n3.spec_children()
                        == n2.spec_children() && n3.spec_dirty() == n2.spec_dirty() && same_pose(
                        n3,
                        n2,
                    ) && same_cache(n3, n2));
                    assert(n3.spec_parent() == new_parent);
                } else {
                    assert(n3 == n2);
                }
                assert(m3.has(x));
                let nf = f.node(x);
                match new_parent {
                    Option::Some(p) => {
                        if x == p {
                            assert(nf.spec_id() == n3.spec_id() && nf.spec_parent()
                                == n3.spec_parent() && nf.spec_dirty() == n3.spec_dirty()
                                && same_pose(nf, n3) && same_cache(nf, n3));
                        } else {
                            assert(nf == n3);
                        }
                    },
                    Option::None => {
                        assert(nf == n3);
                    },
                }
            }
            assert(f.node(node).spec_parent() == new_parent);
            assert forall|x: u128| #[trigger] o.has(x) implies f.node(x).spec_dirty() == (o.node(
                x,
            ).spec_dirty() || o.in_subtree(x, node)) by {}
            let ghost qch_ok = match op {
                Option::Some(q) => forall|c: u128|
                    #[trigger] f.node(q).spec_children().contains(c) <==> (o.node(
                        q,
                    ).spec_children().contains(c) && c != node),
                Option::None => true,
            };
            assert(qch_ok) by {
                match op {
                    Option::Some(q) => {
                        assert(q != node);
                        assert(match new_parent {
                            Option::Some(p) => p != q,
                            Option::None => true,
                        });
                        assert(f.node(q) == m2.node(q));
                        assert(m1.node(q).spec_children() == o.node(q).spec_children());
                    },
                    Option::None => {},
                }
            }
            let ghost pch_ok = match new_parent {
                Option::Some(p) => forall|c: u128|
                    #[trigger] f.node(p).spec_children().contains(c) <==> (o.node(
                        p,
                    ).spec_children().contains(c) || c == node),
                Option::None => true,
            };
            assert(pch_ok) by {
                match new_parent {
                    Option::Some(p) => {
                        assert(m3.node(p).spec_children() == o.node(p).spec_children());
                        assert(f.node(p).spec_children() == m3.node(p).spec_children().push(
                            node,
                        ));
                        assert forall|c: u128|
                            #[trigger] f.node(p).spec_children().contains(c) <==> (o.node(
                                p,
                            ).spec_children().contains(c) || c == node) by {
                            let s0 = o.node(p).spec_children();
                            let s1 = f.node(p).spec_children();
                            if s1.contains(c) {
                                let w = choose|w: int| 0 <= w < s1.len() && s1[w] == c;
                                if w < s0.len() {
                                    assert(s0[w] == c);
                                } else {
                                    assert(c == node);
                                }
                            }
                            if s0.contains(c) {
                                let w = choose|w: int| 0 <= w < s0.len() && s0[w] == c;
                                assert(s1[w] == c);
                            }
                            if c == node {
                                assert(s1[s0.len() as int] == c);
                            }
                        }
                    },
                    Option::None => {},
                }
            }
            // The new parent did not list the node before the edit.
            let ghost p_fresh = match new_parent {
                Option::Some(p) => !o.node(p).spec_children().contains(node),
                Option::None => true,
            };
            assert(p_fresh) by {
                match new_parent {
                    Option::Some(p) => {
                        assert(o.links_ok(p));
                        if o.node(p).spec_children().contains(node) {
                            assert(o.node(node).spec_parent() == Option::Some(p));
                        }
                    },
                    Option::None => {},
                }
            }
            // Invariant: bidirectional link consistency.
            assert(f.links_closed()) by {
                assert forall|x: u128| #[trigger] f.has(x) implies f.links_ok(x) by {
                    assert(o.has(x));
                    assert(o.links_ok(x));
                    // The parent clause.
                    match f.node(x).spec_parent() {
                        Option::Some(z) => {
                            if x == node {
                                assert(new_parent == Option::Some(z));
                                assert(o.has(z) && z != node);
                                assert(f.node(z).spec_children().contains(node));
                            } else {
                                assert(o.node(x).spec_parent() == Option::Some(z));
                                assert(o.node(z).spec_children().contains(x));
                                if Option::Some(z) == op {
                                    let q = z;
                                    assert(f.node(q).spec_children().contains(x));
                                } else if Option::Some(z) == new_parent {
                                    assert(f.node(z).spec_children().contains(x));
                                } else {
                                    assert(f.node(z).spec_children() == o.node(
                                        z,
                                    ).spec_children());
                                }
                            }
                        },
                        Option::None => {},
                    }
                    // The children clause.
                    assert forall|c: u128|
                        #[trigger] f.node(x).spec_children().contains(c) implies f.has(c)
                        && f.node(c).spec_parent() == Option::Some(x) by {
                        if Option::Some(x) == new_parent && c == node {
                            assert(f.node(node).spec_parent() == new_parent);
                        } else {
                            assert(o.node(x).spec_children().contains(c)) by {
                                if Option::Some(x) == op {
                                } else if Option::Some(x) == new_parent {
                                } else {
                                    assert(f.node(x).spec_children() == o.node(
                                        x,
                                    ).spec_children());
                                }
                            }
                            assert(o.has(c) && o.node(c).spec_parent() == Option::Some(x));
                            assert(c != node) by {
                                if c == node {
                                    assert(op == Option::Some(x));
                                    assert(qch_ok);
                                }
                            }
                            assert(f.node(c).spec_parent() == Option::Some(x));
                        }
                    }
                    // The duplicate-free clause.
                    assert(children_distinct(f.node(x).spec_children())) by {
                        if Option::Some(x) == op {
                            assert(f.node(x).spec_children() == m2.node(x).spec_children());
                        } else if Option::Some(x) == new_parent {
                            let s0 = o.node(x).spec_children();
                            let s1 = f.node(x).spec_children();
                            assert(s1 == s0.push(node));
                            assert(children_distinct(s0));
                            assert forall|i: int, j: int|
                                #![trigger s1[i], s1[j]]
                                0 <= i < j < s1.len() implies s1[i] != s1[j] by {
                                if j < s0.len() {
                                    assert(s1[i] == s0[i] && s1[j] == s0[j]);
                                } else {
                                    assert(s1[j] == node);
                                    if s1[i] == node {
                                        assert(s0[i] == node);
                                        assert(s0.contains(node));
                                        assert(!p_fresh);
                                    }
                                }
                            }
                        } else {
                            assert(f.node(x).spec_children() == o.node(x).spec_children());
                            assert(children_distinct(o.node(x).spec_children()));
                        }
                    }
                }
            }
            // Invariant: staleness stays propagated.
            assert(f.dirty_propagated()) by {
                assert forall|c: u128| #[trigger] f.has(c) implies match f.node(
                    c,
                ).spec_parent() {
                    Option::Some(z) => f.node(z).spec_dirty() ==> f.node(c).spec_dirty(),
                    Option::None => true,
                } by {
                    assert(o.has(c));
                    match f.node(c).spec_parent() {
                        Option::Some(z) => {
                            if c == node {
                                assert(o.anc(node, 0nat) == Option::<u128>::Some(node));
                                assert(o.in_subtree(node, node));
                                assert(f.node(node).spec_dirty());
                            } else {
                                assert(o.node(c).spec_parent() == Option::Some(z));
                                if f.node(z).spec_dirty() {
                                    if o.node(z).spec_dirty() {
                                        assert(o.dirty_propagated());
                                        assert(o.node(c).spec_dirty());
                                    } else {
                                        assert(o.in_subtree(z, node));
                                        let k = choose|k: nat|
                                            o.anc(z, k) == Option::<u128>::Some(node);
                                        assert(o.anc(c, (k + 1) as nat) == o.anc(z, k));
                                        assert(o.in_subtree(c, node));
                                    }
                                }
                            }
                        },
                        Option::None => {},
                    }
                }
            }
            // Invariant: the forest stays a forest.  A chain that avoided the
            // moved node is unchanged; a chain through it now continues at
            // the new parent, whose own chain the cycle check kept clear of
            // the node.
            assert forall|z: u128|
                #[trigger] o.has(z) && z != node implies f.node(z).spec_parent() == o.node(
                z,
            ).spec_parent() by {}
            assert(f.acyclic()) by {
                assert forall|x: u128| #[trigger] f.has(x) implies exists|k: nat|
                    f.anc(x, k) == Option::<u128>::None by {
                    assert(o.has(x));
                    if !o.in_subtree(x, node) {
                        let k0 = choose|k: nat| o.anc(x, k) == Option::<u128>::None;
                        assert forall|j: nat| j <= k0 implies #[trigger] o.anc(x, j)
                            != Option::<u128>::Some(node) by {}
                        TransformMap::lemma_anc_same_avoiding(o, f, node, x, k0);
                        assert(f.anc(x, k0) == Option::<u128>::None);
                    } else {
                        let kh = choose|k: nat| o.anc(x, k) == Option::<u128>::Some(node);
                        o.lemma_first_hit(x, node, kh);
                        let m = choose|m: nat|
                            m <= kh && #[trigger] o.anc(x, m) == Option::Some(node) && (forall|
                                j: nat,
                            | j < m ==> o.anc(x, j) != Option::<u128>::Some(node));
                        assert(f.anc(x, m) == Option::<u128>::Some(node)) by {
                            if m == 0 {
                                assert(x == node);
                            } else {
                                assert forall|j: nat| j <= (m - 1) as nat implies #[trigger] o.anc(
                                    x,
                                    j,
                                ) != Option::<u128>::Some(node) by {}
                                TransformMap::lemma_anc_same_avoiding(
                                    o,
                                    f,
                                    node,
                                    x,
                                    (m - 1) as nat,
                                );
                                o.lemma_anc_add(x, (m - 1) as nat, 1nat);
                                let w = o.anc(x, (m - 1) as nat)->Some_0;
                                assert(o.anc(w, 1nat) == Option::<u128>::Some(node));
                                assert(o.has(w));
                                assert(w != node);
                                assert(o.node(w).spec_parent() == Option::Some(node)) by {
                                    match o.node(w).spec_parent() {
                                        Option::Some(z2) => {
                                            assert(o.anc(z2, 0nat) == o.anc(w, 1nat));
                                        },
                                        Option::None => {},
                                    }
                                }
                                assert(f.node(w).spec_parent() == Option::Some(node));
                                f.lemma_anc_add(x, (m - 1) as nat, 1nat);
                                assert(f.anc(node, 0nat) == Option::<u128>::Some(node));
                                assert(f.anc(w, 1nat) == Option::<u128>::Some(node));
                            }
                        }
                        match new_parent {
                            Option::None => {
                                assert(f.anc(node, 1nat) == Option::<u128>::None);
                                f.lemma_anc_add(x, m, 1nat);
                                assert(f.anc(x, (m + 1) as nat) == Option::<u128>::None);
                            },
                            Option::Some(p) => {
                                assert(f.anc(p, 0nat) == Option::<u128>::Some(p));
                                assert(f.anc(node, 1nat) == Option::<u128>::Some(p));
                                f.lemma_anc_add(x, m, 1nat);
                                assert(f.anc(x, (m + 1) as nat) == Option::<u128>::Some(p));
                                let kp = choose|k: nat| o.anc(p, k) == Option::<u128>::None;
                                assert forall|j: nat| j <= kp implies #[trigger] o.anc(p, j)
                                    != Option::<u128>::Some(node) by {
                                    if o.anc(p, j) == Option::<u128>::Some(node) {
                                        assert(o.in_subtree(p, node));
                                    }
                                }
                                TransformMap::lemma_anc_same_avoiding(o, f, node, p, kp);
                                assert(f.anc(p, kp) == Option::<u128>::None);
                                f.lemma_anc_add(x, (m + 1) as nat, kp);
                                assert(f.anc(x, ((m + 1) as nat + kp) as nat)
                                    == Option::<u128>::None);
                            },
                        }
                    }
                }
            }
        }
        Result::Ok(())
    }

    /// Allocates a new transform at the origin, stale, with no links, under
    /// an identifier that no existing record carries, and returns that
    /// identifier.  The `face_y` hint is forwarded to the record constructor,
    /// where it is presently inert.
    pub fn new_transform(&mut self, face_y: bool) -> (r: u128)
        requires
            old(self).wf(),
        ensures
            final(self).wf(),
            !old(self).has(r),
            final(self).has(r),
            forall|x: u128| #[trigger] final(self).has(x) <==> (old(self).has(x) || x == r),
            forall|x: u128|
                #[trigger] old(self).has(x) ==> final(self).node(x) == old(self).node(x),
            final(self).node(r).spec_dirty(),
            final(self).node(r).spec_parent() == Option::<u128>::None,
            final(self).node(r).spec_children() == Seq::<u128>::empty(),
            final(self).node(r).spec_position() == math::vec3_zero_of(),
            final(self).node(r).spec_orientation() == initial_orientation(face_y),
            final(self).s().len() == old(self).s().len() + 1,
    {
        let cand = self.fresh_id();
        let t = ObjectTransform::with_id(cand, face_y);
        let ghost m0 = *self;
        self.transforms.push(t);
        proof {
            TransformMap::lemma_push(m0, *self, t);
            assert forall|x: u128| #[trigger] self.has(x) implies self.links_ok(x) by {
                if x == cand {
                    assert(self.node(x).spec_children().len() == 0);
                } else {
                    assert(m0.has(x));
                    assert(m0.links_ok(x));
                    assert(self.node(x) == m0.node(x));
                    match self.node(x).spec_parent() {
                        Option::Some(p) => {
                            assert(m0.has(p));
                            assert(self.node(p) == m0.node(p));
                        },
                        Option::None => {},
                    }
                    assert forall|c: u128|
                        #[trigger] self.node(x).spec_children().contains(c) implies self.has(c)
                        && self.node(c).spec_parent() == Option::Some(x) by {
                        assert(m0.node(x).spec_children().contains(c));
                        assert(m0.has(c));
                        assert(self.node(c) == m0.node(c));
                    }
                }
            }
            assert(self.dirty_propagated()) by {
                assert forall|x: u128| #[trigger] self.has(x) implies match self.node(
                    x,
                ).spec_parent() {
                    Option::Some(p) => self.node(p).spec_dirty() ==> self.node(x).spec_dirty(),
                    Option::None => true,
                } by {
                    if x != cand {
                        assert(m0.has(x));
                        assert(self.node(x) == m0.node(x));
                        match self.node(x).spec_parent() {
                            Option::Some(p) => {
                                assert(m0.has(p));
                                assert(self.node(p) == m0.node(p));
                            },
                            Option::None => {},
                        }
                    }
                }
            }
            assert(self.acyclic()) by {
                assert forall|x: u128| #[trigger] self.has(x) implies exists|k: nat|
                    self.anc(x, k) == Option::<u128>::None by {
                    if x == cand {
                        assert(self.anc(x, 1nat) == Option::<u128>::None);
                    } else {
                        assert(m0.has(x));
                        let k0 = choose|k: nat| m0.anc(x, k) == Option::<u128>::None;
                        TransformMap::lemma_anc_preserved(m0, *self, x, k0);
                        assert(self.anc(x, k0) == Option::<u128>::None);
                    }
                }
            }
            assert(self.caches_ok()) by {
                assert forall|x: u128| #[trigger] self.has(x) implies (!self.node(
                    x,
                ).spec_dirty() ==> self.node(x).spec_gl_world_matrix() == math::mat_transpose_of(
                    self.node(x).spec_world_matrix(),
                )) by {
                    if x != cand {
                        assert(m0.has(x));
                        assert(self.node(x) == m0.node(x));
                    }
                }
            }
        }
        cand
    }
}

} // verus!
