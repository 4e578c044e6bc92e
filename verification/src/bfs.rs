//! Bidirectional breadth-first search returning every shortest path.
//!
//! The search keeps four maps from vertex id to parent ids: a visited and a
//! frontier map for each direction. A parent id of zero marks a root (the
//! source forward, the destination backward). Each round expands the side
//! whose frontier touches fewer edges; paths are assembled whenever the two
//! frontiers meet.

use vstd::prelude::*;
use vstd::hash_map::HashMapWithView;

use crate::edge_db::EdgeDB;

verus! {

/// Copies a vector of vertex ids.
fn clone_vec_u32(v: &Vec<u32>) -> (r: Vec<u32>)
    ensures
        r@ == v@,
{
    let mut r: Vec<u32> = Vec::new();
    let n = v.len();
    let mut i: usize = 0;
    while i < n
        invariant
            n == v@.len(),
            i <= n,
            r@ == v@.take(i as int),
        decreases n - i,
    {
        r.push(v[i]);
        proof {
            assert(r@ =~= v@.take(i + 1));
        }
        i += 1;
    }
    proof {
        assert(r@ =~= v@);
    }
    r
}

/// Appending an id not yet present keeps a sequence duplicate-free.
proof fn lemma_push_distinct(s: Seq<u32>, k: u32)
    requires
        s.no_duplicates(),
        !s.contains(k),
    ensures
        s.push(k).no_duplicates(),
{
    let t = s.push(k);
    assert forall|i: int, j: int|
        0 <= i < t.len() && 0 <= j < t.len() && i != j implies t[i] != t[j] by {
        if i == s.len() as int && j < s.len() {
            if s[j] == k {
                assert(s.contains(k));
            }
        }
        if j == s.len() as int && i < s.len() {
            if s[i] == k {
                assert(s.contains(k));
            }
        }
    }
}

/// A mapping from vertex id to the list of that vertex's parent ids,
/// with the key set kept alongside for enumeration.
pub struct NeighborList {
    data: HashMapWithView<u32, Vec<u32>>,
    keys: Vec<u32>,
}

impl NeighborList {
    /// The parent lists by vertex id.
    pub closed spec fn view(self) -> Map<u32, Seq<u32>> {
        self.data@.map_values(|v: Vec<u32>| v@)
    }

    /// The key vector mirrors the map's domain, without duplicates, and
    /// every recorded vertex has at least one parent.
    pub closed spec fn wf(self) -> bool {
        &&& self.keys@.no_duplicates()
        &&& (forall|k: u32| self.data@.contains_key(k) <==> #[trigger] self.keys@.contains(k))
        &&& (forall|k: u32| #[trigger] self@.contains_key(k) ==> self@[k].len() > 0)
    }

    /// An empty parent map.
    pub fn new() -> (r: NeighborList)
        ensures
            r.wf(),
            r@ == Map::<u32, Seq<u32>>::empty(),
    {
        proof {
            broadcast use vstd::std_specs::hash::axiom_u32_obeys_hash_table_key_model;
        }
        let r = NeighborList { data: HashMapWithView::new(), keys: Vec::new() };
        proof {
            assert(r@ =~= Map::<u32, Seq<u32>>::empty());
        }
        r
    }

    /// The parent list recorded for `vertex_id`, empty if none.
    pub open spec fn spec_neighbors(self, vertex_id: u32) -> Seq<u32> {
        if self@.contains_key(vertex_id) {
            self@[vertex_id]
        } else {
            Seq::<u32>::empty()
        }
    }

    /// Adds `parent_id` to the parent list of `vertex_id`.
    pub fn record(&mut self, vertex_id: u32, parent_id: u32)
        requires
            old(self).wf(),
        ensures
            final(self).wf(),
            final(self)@ == old(self)@.insert(
                vertex_id,
                old(self).spec_neighbors(vertex_id).push(parent_id),
            ),
    {
        let list = match self.data.get(&vertex_id) {
            Some(cur) => {
                let mut c = clone_vec_u32(cur);
                c.push(parent_id);
                c
            },
            None => {
                self.keys.push(vertex_id);
                let mut c: Vec<u32> = Vec::new();
                c.push(parent_id);
                c
            },
        };
        self.data.insert(vertex_id, list);
        proof {
            assert(final(self)@ =~= old(self)@.insert(
                vertex_id,
                old(self).spec_neighbors(vertex_id).push(parent_id),
            ));
            if !old(self)@.contains_key(vertex_id) {
                assert forall|k: u32| final(self).data@.contains_key(k)
                    <==> #[trigger] final(self).keys@.contains(k) by {
                    if final(self).data@.contains_key(k) {
                        if k == vertex_id {
                            assert(final(self).keys@.last() == vertex_id);
                        } else {
                            assert(old(self).data@.contains_key(k));
                            assert(old(self).keys@.contains(k));
                            let j = choose|j: int|
                                0 <= j < old(self).keys@.len() && old(self).keys@[j] == k;
                            assert(final(self).keys@[j] == k);
                        }
                    }
                    if final(self).keys@.contains(k) {
                        let j = choose|j: int|
                            0 <= j < final(self).keys@.len() && final(self).keys@[j] == k;
                        if j < final(self).keys@.len() - 1 {
                            assert(old(self).keys@[j] == k);
                            assert(old(self).keys@.contains(k));
                        }
                    }
                }
                assert(!old(self).keys@.contains(vertex_id));
                lemma_push_distinct(old(self).keys@, vertex_id);
            }
        }
    }

    /// The parents of `vertex_id`, or an empty list for an unknown vertex.
    pub fn neighbors(&self, vertex_id: u32) -> (r: Vec<u32>)
        ensures
            r@ == self.spec_neighbors(vertex_id),
    {
        match self.data.get(&vertex_id) {
            Some(v) => clone_vec_u32(v),
            None => Vec::new(),
        }
    }

    /// Every vertex that has a parent list, each exactly once.
    pub fn all(&self) -> (r: Vec<u32>)
        requires
            self.wf(),
        ensures
            r@.no_duplicates(),
            forall|k: u32| #[trigger] r@.contains(k) <==> self@.contains_key(k),
            r@.len() == self@.dom().len(),
    {
        let r = clone_vec_u32(&self.keys);
        proof {
            assert(r@.to_set() =~= self@.dom());
            r@.unique_seq_to_set();
        }
        r
    }

    /// Whether `id` has a parent list.
    pub fn contains(&self, id: u32) -> (r: bool)
        ensures
            r == self@.contains_key(id),
    {
        self.data.contains_key(&id)
    }

    /// A recorded map covers finitely many vertices.
    pub proof fn lemma_dom_finite(self)
        requires
            self.wf(),
        ensures
            self@.dom().finite(),
    {
        broadcast use vstd::seq_lib::seq_to_set_is_finite;
        assert(self@.dom() =~= self.keys@.to_set());
    }

    /// Whether any vertex has been recorded.
    pub fn has_some(&self) -> (r: bool)
        requires
            self.wf(),
        ensures
            r == (self@.dom() != Set::<u32>::empty()),
    {
        let r = self.keys.len() > 0;
        proof {
            if self.keys@.len() > 0 {
                assert(self.keys@.contains(self.keys@[0]));
                assert(self@.contains_key(self.keys@[0]));
                assert(self@.dom().contains(self.keys@[0]));
            } else {
                assert forall|k: u32| !(#[trigger] self@.dom().contains(k)) by {
                    assert(!self.keys@.contains(k));
                }
                assert(self@.dom() =~= Set::<u32>::empty());
            }
        }
        r
    }
}

/// The parent map that results from folding `from` into `own`: parent lists
/// of vertices known to both are concatenated, own parents first.
pub open spec fn merged(own: Map<u32, Seq<u32>>, from: Map<u32, Seq<u32>>) -> Map<u32, Seq<u32>> {
    Map::new(
        |k: u32| own.contains_key(k) || from.contains_key(k),
        |k: u32|
            if own.contains_key(k) && from.contains_key(k) {
                own[k] + from[k]
            } else if own.contains_key(k) {
                own[k]
            } else {
                from[k]
            },
    )
}

impl NeighborList {
    /// Folds every entry of `from` into `self`, leaving `from` empty.
    pub fn move_in(&mut self, from: &mut NeighborList)
        requires
            old(self).wf(),
            old(from).wf(),
        ensures
            final(self).wf(),
            final(from).wf(),
            final(from)@ == Map::<u32, Seq<u32>>::empty(),
            final(self)@ == merged(old(self)@, old(from)@),
    {
        let n = from.keys.len();
        let mut i: usize = 0;
        while i < n
            invariant
                self.wf(),
                from.wf(),
                from@ == old(from)@,
                from.keys@ == old(from).keys@,
                n == from.keys@.len(),
                i <= n,
                self@ == merged(old(self)@, old(from)@.restrict(from.keys@.take(i as int).to_set())),
            decreases n - i,
        {
            let k = from.keys[i];
            let ghost pre = self@;
            proof {
                assert(from.keys@.contains(k)) by {
                    assert(from.keys@[i as int] == k);
                }
                assert(from@.contains_key(k));
            }
            let vals = from.neighbors(k);
            let ghost kn = self.spec_neighbors(k);
            let m = vals.len();
            let mut j: usize = 0;
            while j < m
                invariant
                    self.wf(),
                    from@ == old(from)@,
                    from.keys@ == old(from).keys@,
                    m == vals@.len(),
                    vals@ == old(from)@[k],
                    j <= m,
                    kn == (if pre.contains_key(k) {
                        pre[k]
                    } else {
                        Seq::<u32>::empty()
                    }),
                    self@ == (if j == 0 {
                        pre
                    } else {
                        pre.insert(k, kn + vals@.take(j as int))
                    }),
                decreases m - j,
            {
                let ghost selfpre = self@;
                self.record(k, vals[j]);
                proof {
                    if j == 0 {
                        assert(kn + vals@.take(1) =~= kn.push(vals@[0]));
                        assert(self@ =~= pre.insert(k, kn + vals@.take(1)));
                    } else {
                        assert(kn + vals@.take(j as int + 1) =~= (kn + vals@.take(
                            j as int,
                        )).push(vals@[j as int]));
                        assert(self@ =~= pre.insert(k, kn + vals@.take(j as int + 1)));
                    }
                }
                j += 1;
            }
            proof {
                let tnext = from.keys@.take(i as int + 1).to_set();
                let tcur = from.keys@.take(i as int).to_set();
                let t1 = from.keys@.take(i as int + 1);
                assert(tnext =~= tcur.insert(k)) by {
                    assert forall|x: u32| tnext.contains(x) implies tcur.insert(k).contains(x) by {
                        assert(t1.contains(x));
                        let j2 = choose|j2: int| 0 <= j2 < t1.len() && t1[j2] == x;
                        if j2 < i {
                            assert(from.keys@.take(i as int)[j2] == x);
                            assert(from.keys@.take(i as int).contains(x));
                        } else {
                            assert(t1[j2] == k);
                        }
                    }
                    assert forall|x: u32| tcur.insert(k).contains(x) implies tnext.contains(x) by {
                        if x == k {
                            assert(from.keys@.take(i as int + 1)[i as int] == k);
                        } else {
                            assert(from.keys@.take(i as int).contains(x));
                            let j2 = choose|j2: int|
                                0 <= j2 < i && from.keys@.take(i as int)[j2] == x;
                            assert(from.keys@.take(i as int + 1)[j2] == x);
                        }
                    }
                }
                assert(!tcur.contains(k)) by {
                    if tcur.contains(k) {
                        assert(from.keys@.take(i as int).contains(k));
                        let j2 = choose|j2: int| 0 <= j2 < i && from.keys@.take(i as int)[j2] == k;
                        assert(from.keys@[j2] == from.keys@[i as int]);
                    }
                }
                assert(m > 0) by {
                    assert(from@.contains_key(k));
                }
                let lhs = self@;
                let rhs = merged(old(self)@, old(from)@.restrict(tnext));
                assert forall|x: u32| #[trigger] lhs.contains_key(x) == rhs.contains_key(x) by {
                    assert(pre.contains_key(x) == (old(self)@.contains_key(x) || (old(
                        from,
                    )@.contains_key(x) && tcur.contains(x))));
                }
                assert forall|x: u32| lhs.contains_key(x) && rhs.contains_key(x) implies #[trigger] lhs[x]
                    == rhs[x] by {
                    if x == k {
                        assert(vals@.take(m as int) =~= vals@);
                        if !old(self)@.contains_key(k) {
                            assert(Seq::<u32>::empty() + old(from)@[k] =~= old(from)@[k]);
                        }
                    }
                }
                assert(lhs =~= rhs);
            }
            i += 1;
        }
        proof {
            assert(from.keys@.take(n as int) =~= old(from).keys@);
            assert(old(from)@.restrict(old(from).keys@.to_set()) =~= old(from)@) by {
                assert forall|x: u32| old(from)@.contains_key(x) implies old(
                    from,
                ).keys@.to_set().contains(x) by {
                    assert(old(from).keys@.contains(x));
                }
            }
        }
        from.keys = Vec::new();
        from.data.clear();
        proof {
            assert(from@ =~= Map::<u32, Seq<u32>>::empty());
        }
    }

    /// The vertices present in both maps, each exactly once.
    pub fn intersection(x: &NeighborList, y: &NeighborList) -> (r: Vec<u32>)
        requires
            x.wf(),
            y.wf(),
        ensures
            r@.no_duplicates(),
            forall|k: u32| #[trigger] r@.contains(k) <==> x@.contains_key(k) && y@.contains_key(k),
    {
        let mut r: Vec<u32> = Vec::new();
        let n = x.keys.len();
        let mut i: usize = 0;
        while i < n
            invariant
                x.wf(),
                y.wf(),
                n == x.keys@.len(),
                i <= n,
                r@.no_duplicates(),
                forall|k: u32| #[trigger] r@.contains(k) ==> x@.contains_key(k)
                    && y@.contains_key(k),
                forall|j: int|
                    0 <= j < i && y@.contains_key(#[trigger] x.keys@[j]) ==> r@.contains(
                        x.keys@[j],
                    ),
                forall|k: u32| #[trigger] r@.contains(k) ==> x.keys@.take(i as int).contains(k),
            decreases n - i,
        {
            let k = x.keys[i];
            if y.contains(k) {
                proof {
                    assert(!r@.contains(k)) by {
                        if r@.contains(k) {
                            assert(x.keys@.take(i as int).contains(k));
                            let j2 = choose|j2: int|
                                0 <= j2 < i && x.keys@.take(i as int)[j2] == k;
                            assert(x.keys@[j2] == x.keys@[i as int]);
                        }
                    }
                    assert(x@.contains_key(k)) by {
                        assert(x.keys@.contains(k));
                    }
                }
                let ghost rpre = r@;
                r.push(k);
                proof {
                    lemma_push_distinct(rpre, k);
                    assert forall|k2: u32| #[trigger] r@.contains(k2) implies rpre.contains(k2)
                        || k2 == k by {
                        let j2 = choose|j2: int| 0 <= j2 < r@.len() && r@[j2] == k2;
                        if j2 < r@.len() - 1 {
                            assert(rpre[j2] == k2);
                        }
                    }
                    assert forall|k2: u32| rpre.contains(k2) implies #[trigger] r@.contains(
                        k2,
                    ) by {
                        let j2 = choose|j2: int| 0 <= j2 < rpre.len() && rpre[j2] == k2;
                        assert(r@[j2] == k2);
                    }
                    assert(r@.contains(k)) by {
                        assert(r@.last() == k);
                    }
                    assert forall|k2: u32| #[trigger] r@.contains(k2) implies x.keys@.take(
                        i as int + 1,
                    ).contains(k2) by {
                        if rpre.contains(k2) {
                            assert(x.keys@.take(i as int).contains(k2));
                            let j2 = choose|j2: int|
                                0 <= j2 < i && x.keys@.take(i as int)[j2] == k2;
                            assert(x.keys@.take(i as int + 1)[j2] == k2);
                        } else {
                            assert(x.keys@.take(i as int + 1)[i as int] == k);
                        }
                    }
                }
            } else {
                proof {
                    assert forall|k2: u32| #[trigger] r@.contains(k2) implies x.keys@.take(
                        i as int + 1,
                    ).contains(k2) by {
                        assert(x.keys@.take(i as int).contains(k2));
                        let j2 = choose|j2: int| 0 <= j2 < i && x.keys@.take(i as int)[j2] == k2;
                        assert(x.keys@.take(i as int + 1)[j2] == k2);
                    }
                }
            }
            proof {
                assert forall|j: int|
                    0 <= j < i + 1 && y@.contains_key(#[trigger] x.keys@[j]) implies r@.contains(
                    x.keys@[j],
                ) by {}
            }
            i += 1;
        }
        proof {
            assert forall|k: u32| x@.contains_key(k) && y@.contains_key(k) implies #[trigger] r@.contains(
                k,
            ) by {
                assert(x.keys@.contains(k));
                let j = choose|j: int| 0 <= j < x.keys@.len() && x.keys@[j] == k;
            }
        }
        r
    }
}

/// One step along a stored path: a forward step is an edge from `a` to
/// `b`; a backward step is an edge from `b` to `a`.
pub open spec fn step_ok(db: EdgeDB, a: u32, b: u32, forward: bool) -> bool {
    if forward {
        db.has_edge(a, b)
    } else {
        db.has_edge(b, a)
    }
}

/// Consecutive vertices of `q` are linked in the direction of the search.
pub open spec fn chain_ok(db: EdgeDB, q: Seq<u32>, forward: bool) -> bool {
    forall|i: int| 0 <= i < q.len() - 1 ==> #[trigger] step_ok(db, q[i], q[i + 1], forward)
}

/// The neighbour relation one side of the search walks: outgoing lists
/// forward, incoming lists backward.
pub open spec fn spec_neighbor(db: EdgeDB, u: u32, w: u32, forward: bool) -> bool {
    if forward {
        db.spec_outgoing(u as int).contains(w)
    } else {
        db.spec_incoming(u as int).contains(w)
    }
}

/// Consecutive vertices of `q` are linked by the walked neighbour relation.
pub open spec fn dir_chain(db: EdgeDB, q: Seq<u32>, forward: bool) -> bool {
    forall|i: int| 0 <= i < q.len() - 1 ==> #[trigger] spec_neighbor(db, q[i], q[i + 1], forward)
}

/// One recorded parent is sound: zero marks the root at level one; any
/// other parent is a visited vertex one level up, linked by a real edge.
pub open spec fn parent_ok(
    db: EdgeDB,
    vis: Map<u32, Seq<u32>>,
    root: u32,
    lvl: Map<u32, nat>,
    forward: bool,
    v: u32,
    p: u32,
) -> bool {
    if p == 0 {
        v == root && lvl.contains_key(v) && lvl[v] == 1
    } else {
        &&& vis.contains_key(p)
        &&& lvl.contains_key(p)
        &&& lvl.contains_key(v)
        &&& lvl[p] + 1 == lvl[v]
        &&& step_ok(db, p, v, forward)
    }
}

/// Every parent recorded in `m` is sound with respect to the visited map.
pub open spec fn map_ok(
    db: EdgeDB,
    vis: Map<u32, Seq<u32>>,
    m: Map<u32, Seq<u32>>,
    root: u32,
    lvl: Map<u32, nat>,
    forward: bool,
) -> bool {
    forall|v: u32, j: int|
        m.contains_key(v) && 0 <= j < m[v].len() ==> parent_ok(
            db,
            vis,
            root,
            lvl,
            forward,
            v,
            #[trigger] m[v][j],
        )
}

/// Every vertex of `m` has a level, at least one.
pub open spec fn lvl_ok(m: Map<u32, Seq<u32>>, lvl: Map<u32, nat>) -> bool {
    forall|v: u32| #[trigger] m.contains_key(v) ==> lvl.contains_key(v) && lvl[v] >= 1
}

/// What one side of the search maintains: sound parents in both maps,
/// levels for exactly the vertices seen, the frontier at level `d` and
/// disjoint from the visited set, and level one reserved for the root.
pub open spec fn side_inv(
    db: EdgeDB,
    vis: Map<u32, Seq<u32>>,
    unv: Map<u32, Seq<u32>>,
    root: u32,
    lvl: Map<u32, nat>,
    d: nat,
    forward: bool,
) -> bool {
    &&& map_ok(db, vis, vis, root, lvl, forward)
    &&& map_ok(db, vis, unv, root, lvl, forward)
    &&& lvl_ok(vis, lvl)
    &&& lvl_ok(unv, lvl)
    &&& (forall|v: u32| #[trigger] unv.contains_key(v) ==> lvl[v] == d && !vis.contains_key(v))
    &&& (forall|v: u32|
        (vis.contains_key(v) || unv.contains_key(v)) <==> #[trigger] lvl.contains_key(v))
    &&& (forall|v: u32| #[trigger] lvl.contains_key(v) && lvl[v] == 1 ==> v == root)
    &&& !lvl.contains_key(0u32)
    &&& d >= 1
    &&& lvl.contains_key(root) && lvl[root] == 1
    &&& (vis.contains_key(root) ==> vis[root].contains(0u32))
    &&& (unv.contains_key(root) ==> unv[root].contains(0u32))
    &&& (forall|v: u32| #[trigger] vis.contains_key(v) ==> lvl[v] < d && vis[v].len() > 0)
    &&& (forall|v: u32| #[trigger] unv.contains_key(v) ==> unv[v].len() > 0)
    &&& (forall|u: u32, w: u32|
        vis.contains_key(u) && #[trigger] spec_neighbor(db, u, w, forward) ==> lvl.contains_key(w)
            && lvl[w] <= lvl[u] + 1)
    &&& (forall|u: u32, v: u32|
        lvl.contains_key(u) && lvl.contains_key(v) && lvl[u] + 1 == lvl[v]
            && #[trigger] spec_neighbor(db, u, v, forward) ==> (vis.contains_key(v)
            ==> vis[v].contains(u)) && (unv.contains_key(v) ==> unv[v].contains(u)))
}

/// Every walk from the root that stays within the search's depth ends at a
/// levelled vertex, no deeper than the walk is long.
pub proof fn lemma_confine(
    db: EdgeDB,
    vis: Map<u32, Seq<u32>>,
    unv: Map<u32, Seq<u32>>,
    root: u32,
    lvl: Map<u32, nat>,
    d: nat,
    forward: bool,
    q: Seq<u32>,
)
    requires
        side_inv(db, vis, unv, root, lvl, d, forward),
        q.len() >= 1,
        q[0] == root,
        dir_chain(db, q, forward),
        q.len() <= d,
    ensures
        lvl.contains_key(q.last()),
        lvl[q.last()] <= q.len(),
    decreases q.len(),
{
    if q.len() == 1 {
    } else {
        let sub = q.drop_last();
        assert(dir_chain(db, sub, forward)) by {
            assert forall|i: int| 0 <= i < sub.len() - 1 implies #[trigger] spec_neighbor(
                db,
                sub[i],
                sub[i + 1],
                forward,
            ) by {
                assert(spec_neighbor(db, q[i], q[i + 1], forward));
            }
        }
        lemma_confine(db, vis, unv, root, lvl, d, forward, sub);
        let u = q[q.len() - 2];
        assert(u == sub.last());
        assert(lvl[u] < d);
        assert(vis.contains_key(u));
        assert(spec_neighbor(db, u, q.last(), forward)) by {
            assert(spec_neighbor(db, q[q.len() - 2], q[q.len() - 2 + 1], forward));
        }
    }
}

/// Once a frontier has emptied, every walk from the root stays inside the
/// levelled region, whatever its length.
pub proof fn lemma_confine_closed(
    db: EdgeDB,
    vis: Map<u32, Seq<u32>>,
    unv: Map<u32, Seq<u32>>,
    root: u32,
    lvl: Map<u32, nat>,
    d: nat,
    forward: bool,
    q: Seq<u32>,
)
    requires
        side_inv(db, vis, unv, root, lvl, d, forward),
        unv.dom() == Set::<u32>::empty(),
        q.len() >= 1,
        q[0] == root,
        dir_chain(db, q, forward),
    ensures
        lvl.contains_key(q.last()),
    decreases q.len(),
{
    if q.len() > 1 {
        let sub = q.drop_last();
        assert(dir_chain(db, sub, forward)) by {
            assert forall|i: int| 0 <= i < sub.len() - 1 implies #[trigger] spec_neighbor(
                db,
                sub[i],
                sub[i + 1],
                forward,
            ) by {
                assert(spec_neighbor(db, q[i], q[i + 1], forward));
            }
        }
        lemma_confine_closed(db, vis, unv, root, lvl, d, forward, sub);
        let u = q[q.len() - 2];
        assert(u == sub.last());
        assert(!unv.contains_key(u)) by {
            if unv.contains_key(u) {
                assert(unv.dom().contains(u));
            }
        }
        assert(vis.contains_key(u));
        assert(spec_neighbor(db, u, q.last(), forward)) by {
            assert(spec_neighbor(db, q[q.len() - 2], q[q.len() - 2 + 1], forward));
        }
    }
}

/// Every levelled vertex is reached by a stored-edge path of exactly its
/// level: from the root forward, or to the root backward.
pub proof fn lemma_level_path(
    db: EdgeDB,
    vis: Map<u32, Seq<u32>>,
    unv: Map<u32, Seq<u32>>,
    root: u32,
    lvl: Map<u32, nat>,
    d: nat,
    forward: bool,
    v: u32,
)
    requires
        side_inv(db, vis, unv, root, lvl, d, forward),
        lvl.contains_key(v),
    ensures
        forward ==> exists|q: Seq<u32>|
            #[trigger] chain_ok(db, q, true) && q.len() == lvl[v] && q.len() >= 1 && q[0] == root
                && q.last() == v,
        !forward ==> exists|q: Seq<u32>|
            #[trigger] chain_ok(db, q, true) && q.len() == lvl[v] && q.len() >= 1 && q[0] == v
                && q.last() == root,
    decreases lvl[v],
{
    let list = if vis.contains_key(v) {
        vis[v]
    } else {
        unv[v]
    };
    assert(list.len() > 0);
    let p = list[0];
    assert(parent_ok(db, vis, root, lvl, forward, v, p)) by {
        if vis.contains_key(v) {
            assert(parent_ok(db, vis, root, lvl, forward, v, vis[v][0]));
        } else {
            assert(parent_ok(db, vis, root, lvl, forward, v, unv[v][0]));
        }
    }
    if p == 0 {
        let q = seq![v];
        assert(chain_ok(db, q, true));
        assert(q.last() == v);
    } else {
        lemma_level_path(db, vis, unv, root, lvl, d, forward, p);
        if forward {
            let qp = choose|qp: Seq<u32>|
                #[trigger] chain_ok(db, qp, true) && qp.len() == lvl[p] && qp.len() >= 1 && qp[0]
                    == root && qp.last() == p;
            let q = qp.push(v);
            assert(chain_ok(db, q, true)) by {
                assert forall|i: int| 0 <= i < q.len() - 1 implies #[trigger] step_ok(
                    db,
                    q[i],
                    q[i + 1],
                    true,
                ) by {
                    if i < qp.len() - 1 {
                        assert(q[i] == qp[i]);
                        assert(q[i + 1] == qp[i + 1]);
                        assert(step_ok(db, qp[i], qp[i + 1], true));
                    } else {
                        assert(q[i] == p);
                        assert(q[i + 1] == v);
                        assert(step_ok(db, p, v, forward));
                    }
                }
            }
            assert(q.last() == v);
            assert(q[0] == root);
        } else {
            let qp = choose|qp: Seq<u32>|
                #[trigger] chain_ok(db, qp, true) && qp.len() == lvl[p] && qp.len() >= 1 && qp[0]
                    == p && qp.last() == root;
            let q = seq![v] + qp;
            assert(chain_ok(db, q, true)) by {
                assert forall|i: int| 0 <= i < q.len() - 1 implies #[trigger] step_ok(
                    db,
                    q[i],
                    q[i + 1],
                    true,
                ) by {
                    if i == 0 {
                        assert(q[0] == v);
                        assert(q[1] == qp[0]);
                        assert(step_ok(db, p, v, forward));
                        assert(step_ok(db, v, p, true));
                    } else {
                        assert(q[i] == qp[i - 1]);
                        assert(q[i + 1] == qp[i]);
                        assert(step_ok(db, qp[i - 1], qp[i - 1 + 1], true));
                    }
                }
            }
            assert(q.last() == root);
            assert(q[0] == v);
        }
    }
}

/// Two stored-edge paths that share an endpoint splice into one.
pub proof fn lemma_chain_concat(db: EdgeDB, q1: Seq<u32>, q2: Seq<u32>)
    requires
        q1.len() >= 1,
        q2.len() >= 1,
        q1.last() == q2[0],
        chain_ok(db, q1, true),
        chain_ok(db, q2, true),
    ensures
        ({
            let q = q1 + q2.skip(1);
            q.len() == q1.len() + q2.len() - 1 && q[0] == q1[0] && q.last() == q2.last()
                && chain_ok(db, q, true)
        }),
{
    let q = q1 + q2.skip(1);
    assert forall|i: int| 0 <= i < q.len() - 1 implies #[trigger] step_ok(
        db,
        q[i],
        q[i + 1],
        true,
    ) by {
        if i < q1.len() - 1 {
            assert(q[i] == q1[i]);
            assert(q[i + 1] == q1[i + 1]);
            assert(step_ok(db, q1[i], q1[i + 1], true));
        } else if i == q1.len() - 1 {
            assert(q[i] == q1.last());
            assert(q[i + 1] == q2.skip(1)[0]);
            assert(q2.skip(1)[0] == q2[1]);
            assert(step_ok(db, q2[0], q2[0int + 1], true));
        } else {
            let a = i - q1.len() + 1;
            assert(q[i] == q2.skip(1)[i - q1.len()]);
            assert(q2.skip(1)[i - q1.len()] == q2[a]);
            assert(q[i + 1] == q2.skip(1)[i + 1 - q1.len()]);
            assert(q2.skip(1)[i + 1 - q1.len()] == q2[a + 1]);
            assert(step_ok(db, q2[a], q2[a + 1], true));
        }
    }
    if q2.len() == 1 {
        assert(q =~= q1);
    } else {
        assert(q.last() == q2.skip(1).last());
        assert(q2.skip(1).last() == q2.last());
    }
}

/// A parent id handed to the renderer: zero only at the root level, any
/// other id a visited vertex one level below `l`.
pub open spec fn render_id_ok(
    vis: Map<u32, Seq<u32>>,
    lvl: Map<u32, nat>,
    l: nat,
    id: u32,
) -> bool {
    if id == 0 {
        l == 1
    } else {
        vis.contains_key(id) && lvl.contains_key(id) && lvl[id] + 1 == l
    }
}

/// A rendered ancestor path: one vertex per level below `l`, each visited
/// at exactly its position's level, linked in search direction, starting at
/// the root and ending at one of the parents.
pub open spec fn render_path_ok(
    db: EdgeDB,
    vis: Map<u32, Seq<u32>>,
    lvl: Map<u32, nat>,
    root: u32,
    forward: bool,
    l: nat,
    ids: Seq<u32>,
    q: Seq<u32>,
) -> bool {
    &&& q.len() + 1 == l
    &&& chain_ok(db, q, forward)
    &&& (q.len() > 0 ==> q[0] == root && ids.contains(q.last()) && q.last() != 0)
    &&& (forall|k: int|
        0 <= k < q.len() ==> vis.contains_key(#[trigger] q[k]) && lvl.contains_key(q[k]) && lvl[
            q[k]] == k + 1)
}

/// A walk written in the visited map's parent lists: each vertex appears in
/// the next one's list, and the first one carries the root marker.
pub open spec fn anchored_chain(vis: Map<u32, Seq<u32>>, q: Seq<u32>) -> bool {
    &&& q.len() > 0
    &&& vis.contains_key(q[0]) && vis[q[0]].contains(0u32)
    &&& (forall|k: int|
        0 <= k < q.len() - 1 ==> vis.contains_key(#[trigger] q[k + 1]) && vis[q[k + 1]].contains(
            q[k],
        ))
}

/// All ancestor paths of a vertex whose parents are `ids`, rebuilt by
/// walking the visited map's parent lists: every parent chain appears, and
/// nothing else.
#[verifier::rlimit(60)]
fn render_paths(
    ids: &Vec<u32>,
    visited: &NeighborList,
    Ghost(db): Ghost<EdgeDB>,
    Ghost(root): Ghost<u32>,
    Ghost(lvl): Ghost<Map<u32, nat>>,
    Ghost(forward): Ghost<bool>,
    Ghost(l): Ghost<nat>,
) -> (r: Vec<Vec<u32>>)
    requires
        visited.wf(),
        map_ok(db, visited@, visited@, root, lvl, forward),
        lvl_ok(visited@, lvl),
        forall|v: u32| #[trigger] lvl.contains_key(v) && lvl[v] == 1 ==> v == root,
        l >= 1,
        forall|j: int| 0 <= j < ids@.len() ==> render_id_ok(visited@, lvl, l, #[trigger] ids@[j]),
    ensures
        forall|i: int|
            0 <= i < r@.len() ==> render_path_ok(
                db,
                visited@,
                lvl,
                root,
                forward,
                l,
                ids@,
                #[trigger] r@[i]@,
            ),
        ids@.len() > 0 ==> r@.len() > 0,
        l == 1 && ids@.len() > 0 ==> r@.len() == 1 && r@[0]@ == Seq::<u32>::empty(),
        forall|q: Seq<u32>|
            q.len() + 1 == l && q.len() > 0 && ids@.contains(q.last()) && #[trigger] anchored_chain(
                visited@,
                q,
            ) ==> exists|x: int| 0 <= x < r@.len() && (#[trigger] r@[x]@) == q,
    decreases l,
{
    let mut paths: Vec<Vec<u32>> = Vec::new();
    let n = ids.len();
    if n > 0 && ids[0] == 0 {
        proof {
            assert(render_id_ok(visited@, lvl, l, ids@[0]));
            assert(l == 1);
        }
        let empty_path: Vec<u32> = Vec::new();
        paths.push(empty_path);
        proof {
            assert(paths@[0]@.len() == 0);
            assert(paths@[0]@ =~= Seq::<u32>::empty());
        }
        return paths;
    }
    let mut i: usize = 0;
    while i < n
        invariant
            visited.wf(),
            map_ok(db, visited@, visited@, root, lvl, forward),
            lvl_ok(visited@, lvl),
            forall|v: u32| #[trigger] lvl.contains_key(v) && lvl[v] == 1 ==> v == root,
            l >= 1,
            n == ids@.len(),
            forall|j: int|
                0 <= j < ids@.len() ==> render_id_ok(visited@, lvl, l, #[trigger] ids@[j]),
            n > 0 ==> ids@[0] != 0,
            i <= n,
            paths@.len() >= i,
            forall|x: int|
                0 <= x < paths@.len() ==> render_path_ok(
                    db,
                    visited@,
                    lvl,
                    root,
                    forward,
                    l,
                    ids@,
                    #[trigger] paths@[x]@,
                ),
            forall|q: Seq<u32>|
                q.len() + 1 == l && q.len() > 0 && ids@.take(i as int).contains(q.last())
                    && #[trigger] anchored_chain(visited@, q) ==> exists|x: int|
                    0 <= x < paths@.len() && (#[trigger] paths@[x]@) == q,
        decreases n - i,
    {
        let id = ids[i];
        if id == 0 {
            proof {
                assert(render_id_ok(visited@, lvl, l, ids@[0]));
                assert(render_id_ok(visited@, lvl, l, ids@[i as int]));
                assert(lvl[ids@[0]] + 1 == l);
                assert(lvl[ids@[0]] >= 1) by {
                    assert(visited@.contains_key(ids@[0]));
                }
                assert(false);
            }
        }
        proof {
            assert(render_id_ok(visited@, lvl, l, ids@[i as int]));
            assert(l >= 2) by {
                assert(visited@.contains_key(id));
            }
        }
        let sub_ids = visited.neighbors(id);
        proof {
            assert(sub_ids@ == visited@[id]);
            assert(sub_ids@.len() > 0);
            assert forall|j: int| 0 <= j < sub_ids@.len() implies render_id_ok(
                visited@,
                lvl,
                (l - 1) as nat,
                #[trigger] sub_ids@[j],
            ) by {
                assert(parent_ok(db, visited@, root, lvl, forward, id, visited@[id][j]));
            }
        }
        let current_paths = render_paths(
            &sub_ids,
            visited,
            Ghost(db),
            Ghost(root),
            Ghost(lvl),
            Ghost(forward),
            Ghost((l - 1) as nat),
        );
        let ghost pre_paths = paths@;
        let m = current_paths.len();
        let mut j: usize = 0;
        while j < m
            invariant
                visited.wf(),
                l >= 2,
                lvl.contains_key(id),
                lvl[id] + 1 == l,
                forall|v: u32| #[trigger] lvl.contains_key(v) && lvl[v] == 1 ==> v == root,
                n == ids@.len(),
                i < n,
                ids@[i as int] == id,
                id != 0,
                m == current_paths@.len(),
                j <= m,
                paths@.len() >= pre_paths.len() + j,
                forall|x: int| 0 <= x < pre_paths.len() ==> #[trigger] paths@[x] == pre_paths[x],
                sub_ids@ == visited@[id],
                forall|x: int|
                    0 <= x < current_paths@.len() ==> render_path_ok(
                        db,
                        visited@,
                        lvl,
                        root,
                        forward,
                        (l - 1) as nat,
                        visited@[id],
                        #[trigger] current_paths@[x]@,
                    ),
                (l - 1) as nat == 1 ==> current_paths@.len() == 1 && current_paths@[0]@ == Seq::<
                    u32,
                >::empty(),
                forall|c: Seq<u32>|
                    c.len() + 1 == l - 1 && c.len() > 0 && sub_ids@.contains(c.last())
                        && #[trigger] anchored_chain(visited@, c) ==> exists|x: int|
                        0 <= x < current_paths@.len() && (#[trigger] current_paths@[x]@) == c,
                forall|x: int|
                    0 <= x < j ==> exists|y: int|
                        0 <= y < paths@.len() && (#[trigger] paths@[y]@) == (
                        #[trigger] current_paths@[x]@).push(id),
                visited@.contains_key(id),
                forall|jj: int|
                    0 <= jj < visited@[id].len() ==> parent_ok(
                        db,
                        visited@,
                        root,
                        lvl,
                        forward,
                        id,
                        #[trigger] visited@[id][jj],
                    ),
                map_ok(db, visited@, visited@, root, lvl, forward),
                forall|x: int|
                    0 <= x < paths@.len() ==> render_path_ok(
                        db,
                        visited@,
                        lvl,
                        root,
                        forward,
                        l,
                        ids@,
                        #[trigger] paths@[x]@,
                    ),
            decreases m - j,
        {
            let current_path = &current_paths[j];
            let mut new_path = clone_vec_u32(current_path);
            new_path.push(id);
            proof {
                let q = new_path@;
                let cp = current_path@;
                assert(render_path_ok(
                    db,
                    visited@,
                    lvl,
                    root,
                    forward,
                    (l - 1) as nat,
                    visited@[id],
                    cp,
                ));
                assert(q.len() + 1 == l);
                assert forall|x: int| 0 <= x < q.len() - 1 implies #[trigger] step_ok(
                    db,
                    q[x],
                    q[x + 1],
                    forward,
                ) by {
                    if x < cp.len() - 1 {
                        assert(step_ok(db, cp[x], cp[x + 1], forward));
                    } else {
                        assert(x == cp.len() - 1);
                        assert(q[x] == cp.last());
                        assert(q[x + 1] == id);
                        assert(visited@[id].contains(cp.last()));
                        let jj = choose|jj: int|
                            0 <= jj < visited@[id].len() && visited@[id][jj] == cp.last();
                        assert(parent_ok(db, visited@, root, lvl, forward, id, visited@[id][jj]));
                        assert(step_ok(db, cp.last(), id, forward));
                    }
                }
                if q.len() > 0 {
                    if cp.len() > 0 {
                        assert(q[0] == cp[0]);
                    } else {
                        assert(l == 2);
                        assert(lvl[id] == 1);
                        assert(q[0] == id);
                        assert(id == root);
                    }
                    assert(q.last() == id);
                    assert(ids@.contains(q.last())) by {
                        assert(ids@[i as int] == id);
                    }
                }
                assert forall|k: int| 0 <= k < q.len() implies visited@.contains_key(
                    #[trigger] q[k],
                ) && lvl.contains_key(q[k]) && lvl[q[k]] == k + 1 by {
                    if k < cp.len() {
                        assert(visited@.contains_key(cp[k]) && lvl[cp[k]] == k + 1);
                    } else {
                        assert(q[k] == id);
                    }
                }
                assert(render_path_ok(db, visited@, lvl, root, forward, l, ids@, q));
            }
            let ghost pre2 = paths@;
            paths.push(new_path);
            proof {
                assert forall|x: int| 0 <= x < j + 1 implies exists|y: int|
                    0 <= y < paths@.len() && (#[trigger] paths@[y]@) == (
                    #[trigger] current_paths@[x]@).push(id) by {
                    if x == j {
                        assert(paths@[paths@.len() - 1]@ == current_paths@[x]@.push(id));
                    } else {
                        let y = choose|y: int|
                            0 <= y < pre2.len() && (#[trigger] pre2[y]@)
                                == current_paths@[x]@.push(id);
                        assert(paths@[y]@ == pre2[y]@);
                    }
                }
            }
            j += 1;
        }
        proof {
            assert forall|q: Seq<u32>|
                q.len() + 1 == l && q.len() > 0 && ids@.take(i + 1).contains(q.last())
                    && #[trigger] anchored_chain(visited@, q) implies exists|x: int|
                0 <= x < paths@.len() && (#[trigger] paths@[x]@) == q by {
                if ids@.take(i as int).contains(q.last()) {
                    let x0 = choose|x0: int|
                        0 <= x0 < pre_paths.len() && (#[trigger] pre_paths[x0]@) == q;
                    assert(paths@[x0]@ == q);
                } else {
                    let t1 = ids@.take(i + 1);
                    let pos = choose|pos: int| 0 <= pos < t1.len() && t1[pos] == q.last();
                    assert(t1[pos] == ids@[pos]);
                    assert(ids@[pos] == q.last());
                    assert(pos == i) by {
                        if pos < i {
                            assert(ids@.take(i as int)[pos] == q.last());
                        }
                    }
                    assert(q.last() == id);
                    let c = q.drop_last();
                    if c.len() == 0 {
                        assert(q =~= Seq::<u32>::empty().push(id));
                        assert(anchored_chain(visited@, q));
                        assert(q[0] == id);
                        assert(visited@[id].contains(0u32));
                        assert(l == 2) by {
                            assert(q.len() == 1);
                        }
                        assert(current_paths@[0]@ == Seq::<u32>::empty());
                        let y = choose|y: int|
                            0 <= y < paths@.len() && (#[trigger] paths@[y]@)
                                == current_paths@[0]@.push(id);
                        assert(current_paths@[0]@.push(id) =~= q);
                        assert(paths@[y]@ == q);
                    } else {
                        assert(anchored_chain(visited@, c)) by {
                            assert(c[0] == q[0]);
                            assert forall|k: int|
                                0 <= k < c.len() - 1 implies visited@.contains_key(
                                #[trigger] c[k + 1],
                            ) && visited@[c[k + 1]].contains(c[k]) by {
                                assert(visited@.contains_key(q[k + 1]) && visited@[
                                q[k + 1]].contains(q[k]));
                            }
                        }
                        assert(sub_ids@.contains(c.last())) by {
                            assert(visited@.contains_key(q[c.len() - 1 + 1]) && visited@[
                            q[c.len() - 1 + 1]].contains(q[c.len() - 1]));
                            assert(q[c.len() as int] == id);
                            assert(c.last() == q[c.len() - 1]);
                        }
                        assert(c.len() + 1 == l - 1);
                        let x1 = choose|x1: int|
                            0 <= x1 < current_paths@.len() && (#[trigger] current_paths@[x1]@)
                                == c;
                        let y = choose|y: int|
                            0 <= y < paths@.len() && (#[trigger] paths@[y]@)
                                == current_paths@[x1]@.push(id);
                        assert(current_paths@[x1]@.push(id) =~= q);
                        assert(paths@[y]@ == q);
                    }
                }
            }
        }
        i += 1;
    }
    proof {
        assert(ids@.take(n as int) =~= ids@);
    }
    paths
}

/// Which neighbour list of a vertex the search walks.
enum EdgeDirection {
    Incoming,
    Outgoing,
}

/// The sum of the list lengths, one per vertex, of the chosen side over the
/// first `k` vertices.
spec fn spec_edge_total(db: EdgeDB, vs: Seq<u32>, outgoing: bool, k: int) -> int
    decreases k,
{
    if k <= 0 {
        0
    } else {
        spec_edge_total(db, vs, outgoing, k - 1) + (if outgoing {
            db.spec_outgoing(vs[k - 1] as int).len() as int
        } else {
            db.spec_incoming(vs[k - 1] as int).len() as int
        })
    }
}

/// Partial sums of list lengths never shrink.
proof fn lemma_edge_total_monotone(db: EdgeDB, vs: Seq<u32>, outgoing: bool, k: int)
    requires
        0 <= k <= vs.len(),
    ensures
        forall|k2: int| 0 <= k2 <= k ==> #[trigger] spec_edge_total(db, vs, outgoing, k2)
            <= spec_edge_total(db, vs, outgoing, k),
    decreases k,
{
    if k > 0 {
        lemma_edge_total_monotone(db, vs, outgoing, k - 1);
    }
}

/// The total number of edges the frontier touches in the given direction,
/// saturating at the counter's width: it only steers which side expands
/// next.
fn count_edges(vertexes: &Vec<u32>, direction: &EdgeDirection, edge_db: &EdgeDB) -> (r: u64)
    requires
        edge_db.wf(),
    ensures
        ({
            let outgoing = direction matches EdgeDirection::Outgoing;
            let total = spec_edge_total(*edge_db, vertexes@, outgoing, vertexes@.len() as int);
            r == if total <= u64::MAX {
                total
            } else {
                u64::MAX as int
            }
        }),
{
    let ghost outgoing = direction matches EdgeDirection::Outgoing;
    let mut count: u64 = 0;
    let n = vertexes.len();
    let mut i: usize = 0;
    while i < n
        invariant
            edge_db.wf(),
            outgoing == (direction matches EdgeDirection::Outgoing),
            n == vertexes@.len(),
            i <= n,
            count == ({
                let partial = spec_edge_total(*edge_db, vertexes@, outgoing, i as int);
                if partial <= u64::MAX {
                    partial
                } else {
                    u64::MAX as int
                }
            }),
        decreases n - i,
    {
        let al = edge_db.read_edges(vertexes[i]);
        let al_count = match direction {
            EdgeDirection::Incoming => al.incoming.len(),
            EdgeDirection::Outgoing => al.outgoing.len(),
        };
        let add = al_count as u64;
        proof {
            assert(spec_edge_total(*edge_db, vertexes@, outgoing, i + 1) == spec_edge_total(
                *edge_db,
                vertexes@,
                outgoing,
                i as int,
            ) + add);
            lemma_edge_total_monotone(*edge_db, vertexes@, outgoing, i + 1);
        }
        if count <= u64::MAX - add {
            count = count + add;
        } else {
            count = u64::MAX;
        }
        i += 1;
    }
    count
}

/// Compares two id paths.
fn vec_u32_eq(a: &Vec<u32>, b: &Vec<u32>) -> (r: bool)
    ensures
        r == (a@ == b@),
{
    let n = a.len();
    if n != b.len() {
        proof {
            assert(a@.len() != b@.len());
        }
        return false;
    }
    let mut i: usize = 0;
    while i < n
        invariant
            n == a@.len(),
            n == b@.len(),
            i <= n,
            forall|j: int| 0 <= j < i ==> a@[j] == b@[j],
        decreases n - i,
    {
        if a[i] != b[i] {
            return false;
        }
        i += 1;
    }
    proof {
        assert(a@ =~= b@);
    }
    true
}

/// Whether the result set already holds this exact path.
fn contains_path(paths: &Vec<Vec<u32>>, p: &Vec<u32>) -> (r: bool)
    ensures
        r == exists|i: int| 0 <= i < paths@.len() && (#[trigger] paths@[i]@) == p@,
{
    let n = paths.len();
    let mut i: usize = 0;
    while i < n
        invariant
            n == paths@.len(),
            i <= n,
            forall|j: int| 0 <= j < i ==> (#[trigger] paths@[j]@) != p@,
        decreases n - i,
    {
        if vec_u32_eq(&paths[i], p) {
            proof {
                assert(paths@[i as int]@ == p@);
            }
            return true;
        }
        i += 1;
    }
    false
}

/// The forward half, the meeting vertex, and the reversed backward half,
/// chained into one id path.
fn assemble_path(pf: &Vec<u32>, mid: u32, pb: &Vec<u32>) -> (r: Vec<u32>)
    ensures
        r@.len() == pf@.len() + 1 + pb@.len(),
        forall|i: int| 0 <= i < pf@.len() ==> r@[i] == pf@[i],
        r@[pf@.len() as int] == mid,
        forall|i: int|
            0 <= i < pb@.len() ==> #[trigger] r@[pf@.len() + 1 + i] == pb@[pb@.len() - 1 - i],
{
    let mut r = clone_vec_u32(pf);
    r.push(mid);
    let flen = pf.len();
    let blen = pb.len();
    let mut k: usize = blen;
    while k > 0
        invariant
            flen == pf@.len(),
            blen == pb@.len(),
            k <= blen,
            r@.len() == flen + 1 + (blen - k),
            forall|i: int| 0 <= i < flen ==> r@[i] == pf@[i],
            r@[flen as int] == mid,
            forall|i: int|
                0 <= i < blen - k ==> #[trigger] r@[flen + 1 + i] == pb@[blen - 1 - i],
        decreases k,
    {
        k -= 1;
        r.push(pb[k]);
    }
    r
}

/// Expands one frontier: its vertices are folded into the visited map, and
/// every vertex their edges reach that is not yet visited is recorded in
/// the new frontier with the expanding vertex as a parent.
#[verifier::rlimit(60)]
fn expand_frontier(
    visited: &mut NeighborList,
    unvisited: &mut NeighborList,
    edge_db: &EdgeDB,
    forward: bool,
    Ghost(root): Ghost<u32>,
    Ghost(lvl): Ghost<Map<u32, nat>>,
    Ghost(d): Ghost<nat>,
) -> (newlvl: Ghost<Map<u32, nat>>)
    requires
        edge_db.wf(),
        edge_db.consistent(),
        old(visited).wf(),
        old(unvisited).wf(),
        side_inv(*edge_db, old(visited)@, old(unvisited)@, root, lvl, d, forward),
        lvl.dom().finite(),
    ensures
        final(visited).wf(),
        final(unvisited).wf(),
        side_inv(
            *edge_db,
            final(visited)@,
            final(unvisited)@,
            root,
            newlvl@,
            (d + 1) as nat,
            forward,
        ),
        newlvl@.dom().finite(),
        forall|v: u32| #[trigger] final(visited)@.contains_key(v) <==> lvl.contains_key(v),
        forall|v: u32|
            lvl.contains_key(v) ==> newlvl@.contains_key(v) && #[trigger] newlvl@[v] == lvl[v],
        forall|v: u32| #[trigger] final(unvisited)@.contains_key(v) ==> !lvl.contains_key(v),
{
    let ghost vis0 = old(visited)@;
    let ghost unv0 = old(unvisited)@;
    let visit_q = unvisited.all();
    visited.move_in(unvisited);
    proof {
        lemma_map_ok_after_merge(*edge_db, vis0, unv0, root, lvl, forward);
        assert forall|v: u32, j: int|
            visited@.contains_key(v) && 0 <= j < visited@[v].len() implies parent_ok(
            *edge_db,
            visited@,
            root,
            lvl,
            forward,
            v,
            #[trigger] visited@[v][j],
        ) by {
            assert(map_ok(*edge_db, merged(vis0, unv0), merged(vis0, unv0), root, lvl, forward));
            assert(parent_ok(*edge_db, merged(vis0, unv0), root, lvl, forward, v, visited@[v][j]));
        }
        assert forall|u: u32, v: u32|
            lvl.contains_key(u) && lvl.contains_key(v) && lvl[u] + 1 == lvl[v] && lvl[v] <= d
                && #[trigger] spec_neighbor(*edge_db, u, v, forward) implies visited@[v].contains(
            u,
        ) by {
            if vis0.contains_key(v) {
                assert(vis0[v].contains(u));
                let j = choose|j: int| 0 <= j < vis0[v].len() && vis0[v][j] == u;
                assert(visited@[v][j] == u);
            } else {
                assert(unv0.contains_key(v));
                assert(unv0[v].contains(u));
                let j = choose|j: int| 0 <= j < unv0[v].len() && unv0[v][j] == u;
                if vis0.contains_key(v) {
                } else {
                    assert(visited@[v] == unv0[v]);
                }
                assert(visited@[v].contains(u));
            }
        }
        if vis0.contains_key(root) {
            assert(vis0[root].contains(0u32));
            let j = choose|j: int| 0 <= j < vis0[root].len() && vis0[root][j] == 0u32;
            assert(visited@[root][j] == 0u32);
        } else {
            assert(unv0.contains_key(root));
            assert(unv0[root].contains(0u32));
            let j = choose|j: int| 0 <= j < unv0[root].len() && unv0[root][j] == 0u32;
            assert(visited@[root].contains(0u32));
        }
    }
    let ghost vis = visited@;
    let ghost mut cur: Map<u32, nat> = lvl;
    proof {
        assert forall|j: int| 0 <= j < visit_q@.len() implies vis.contains_key(
            #[trigger] visit_q@[j],
        ) && cur.contains_key(visit_q@[j]) && cur[visit_q@[j]] == d by {
            assert(visit_q@.contains(visit_q@[j]));
            assert(unv0.contains_key(visit_q@[j]));
        }
        assert forall|u: u32| #[trigger] cur.contains_key(u) && cur[u] == d implies visit_q@.contains(
            u,
        ) by {
            if vis0.contains_key(u) {
                assert(lvl[u] < d);
            }
            assert(unv0.contains_key(u));
        }
        assert forall|v: u32| #[trigger] vis.contains_key(v) implies cur[v] <= d && vis[v].len()
            > 0 by {
            if vis0.contains_key(v) && unv0.contains_key(v) {
                assert(false);
            }
        }
    }
    let n = visit_q.len();
    let mut a: usize = 0;
    while a < n
        invariant
            edge_db.wf(),
            edge_db.consistent(),
            visited.wf(),
            unvisited.wf(),
            vis == visited@,
            cur.dom().finite(),
            d >= 1,
            n == visit_q@.len(),
            a <= n,
            // frontier vertices enumerate the level-d layer
            forall|j: int|
                0 <= j < visit_q@.len() ==> vis.contains_key(#[trigger] visit_q@[j])
                    && cur.contains_key(visit_q@[j]) && cur[visit_q@[j]] == d,
            forall|u: u32| #[trigger] cur.contains_key(u) && cur[u] == d ==> visit_q@.contains(u),
            // the old layers are untouched
            forall|v: u32| #[trigger] vis.contains_key(v) <==> lvl.contains_key(v),
            forall|v: u32|
                lvl.contains_key(v) ==> cur.contains_key(v) && #[trigger] cur[v] == lvl[v],
            forall|v: u32| #[trigger] unvisited@.contains_key(v) ==> !lvl.contains_key(v),
            // the mid-round shape of the side invariant
            map_ok(*edge_db, vis, vis, root, cur, forward),
            map_ok(*edge_db, vis, unvisited@, root, cur, forward),
            lvl_ok(vis, cur),
            lvl_ok(unvisited@, cur),
            forall|v: u32| #[trigger] unvisited@.contains_key(v) ==> cur[v] == d + 1
                && !vis.contains_key(v) && unvisited@[v].len() > 0,
            forall|v: u32|
                (vis.contains_key(v) || unvisited@.contains_key(v)) <==> #[trigger] cur.contains_key(
                    v,
                ),
            forall|v: u32| #[trigger] cur.contains_key(v) && cur[v] == 1 ==> v == root,
            !cur.contains_key(0u32),
            cur.contains_key(root) && cur[root] == 1,
            vis.contains_key(root) && vis[root].contains(0u32),
            forall|v: u32| #[trigger] vis.contains_key(v) ==> cur[v] <= d && vis[v].len() > 0,
            // closure of the old layers
            forall|u: u32, w: u32|
                vis.contains_key(u) && cur[u] < d && #[trigger] spec_neighbor(
                    *edge_db,
                    u,
                    w,
                    forward,
                ) ==> cur.contains_key(w) && cur[w] <= cur[u] + 1,
            // closure of the processed part of the frontier
            forall|x: int, w: u32|
                0 <= x < a && #[trigger] spec_neighbor(*edge_db, visit_q@[x], w, forward)
                    ==> cur.contains_key(w) && cur[w] <= d + 1,
            // parents already complete below the new layer
            forall|u: u32, v: u32|
                cur.contains_key(u) && cur.contains_key(v) && cur[u] + 1 == cur[v] && cur[v] <= d
                    && #[trigger] spec_neighbor(*edge_db, u, v, forward) ==> vis[v].contains(u),
            // parents of the new layer, for the processed part
            forall|x: int, v: u32|
                0 <= x < a && #[trigger] spec_neighbor(*edge_db, visit_q@[x], v, forward)
                    && !vis.contains_key(v) ==> unvisited@.contains_key(v)
                    && unvisited@[v].contains(visit_q@[x]),
        decreases n - a,
    {
        let current_id = visit_q[a];
        let al = edge_db.read_edges(current_id);
        let neighbor_ids = if forward {
            al.outgoing
        } else {
            al.incoming
        };
        proof {
            if forward {
                assert(neighbor_ids@ == edge_db.spec_outgoing(current_id as int));
            } else {
                assert(neighbor_ids@ == edge_db.spec_incoming(current_id as int));
            }
        }
        let m = neighbor_ids.len();
        let mut b: usize = 0;
        while b < m
            invariant
                edge_db.wf(),
                edge_db.consistent(),
                visited.wf(),
                unvisited.wf(),
                vis == visited@,
                cur.dom().finite(),
                d >= 1,
                n == visit_q@.len(),
                a < n,
                current_id == visit_q@[a as int],
                m == neighbor_ids@.len(),
                b <= m,
                forward ==> neighbor_ids@ == edge_db.spec_outgoing(current_id as int),
                !forward ==> neighbor_ids@ == edge_db.spec_incoming(current_id as int),
                forall|j: int|
                    0 <= j < visit_q@.len() ==> vis.contains_key(#[trigger] visit_q@[j])
                        && cur.contains_key(visit_q@[j]) && cur[visit_q@[j]] == d,
                forall|u: u32| #[trigger] cur.contains_key(u) && cur[u] == d ==> visit_q@.contains(
                    u,
                ),
                forall|v: u32| #[trigger] vis.contains_key(v) <==> lvl.contains_key(v),
                forall|v: u32|
                    lvl.contains_key(v) ==> cur.contains_key(v) && #[trigger] cur[v] == lvl[v],
                forall|v: u32| #[trigger] unvisited@.contains_key(v) ==> !lvl.contains_key(v),
                map_ok(*edge_db, vis, vis, root, cur, forward),
                map_ok(*edge_db, vis, unvisited@, root, cur, forward),
                lvl_ok(vis, cur),
                lvl_ok(unvisited@, cur),
                forall|v: u32| #[trigger] unvisited@.contains_key(v) ==> cur[v] == d + 1
                    && !vis.contains_key(v) && unvisited@[v].len() > 0,
                forall|v: u32|
                    (vis.contains_key(v) || unvisited@.contains_key(v))
                        <==> #[trigger] cur.contains_key(v),
                forall|v: u32| #[trigger] cur.contains_key(v) && cur[v] == 1 ==> v == root,
                !cur.contains_key(0u32),
                cur.contains_key(root) && cur[root] == 1,
                vis.contains_key(root) && vis[root].contains(0u32),
                forall|v: u32| #[trigger] vis.contains_key(v) ==> cur[v] <= d && vis[v].len() > 0,
                forall|u: u32, w: u32|
                    vis.contains_key(u) && cur[u] < d && #[trigger] spec_neighbor(
                        *edge_db,
                        u,
                        w,
                        forward,
                    ) ==> cur.contains_key(w) && cur[w] <= cur[u] + 1,
                forall|x: int, w: u32|
                    0 <= x < a && #[trigger] spec_neighbor(*edge_db, visit_q@[x], w, forward)
                        ==> cur.contains_key(w) && cur[w] <= d + 1,
                forall|y: int|
                    0 <= y < b ==> cur.contains_key(#[trigger] neighbor_ids@[y]) && cur[
                    neighbor_ids@[y]] <= d + 1,
                forall|u: u32, v: u32|
                    cur.contains_key(u) && cur.contains_key(v) && cur[u] + 1 == cur[v] && cur[v]
                        <= d && #[trigger] spec_neighbor(*edge_db, u, v, forward)
                        ==> vis[v].contains(u),
                forall|x: int, v: u32|
                    0 <= x < a && #[trigger] spec_neighbor(*edge_db, visit_q@[x], v, forward)
                        && !vis.contains_key(v) ==> unvisited@.contains_key(v)
                        && unvisited@[v].contains(visit_q@[x]),
                forall|y: int|
                    0 <= y < b && !vis.contains_key(#[trigger] neighbor_ids@[y])
                        ==> unvisited@.contains_key(neighbor_ids@[y]) && unvisited@[
                    neighbor_ids@[y]].contains(current_id),
            decreases m - b,
        {
            let target_id = neighbor_ids[b];
            if !visited.contains(target_id) {
                let ghost pre_unv = unvisited@;
                let ghost pre_cur = cur;
                unvisited.record(target_id, current_id);
                proof {
                    broadcast use vstd::set::group_set_axioms;
                    cur = cur.insert(target_id, (d + 1) as nat);
                    assert(cur.dom() =~= pre_cur.dom().insert(target_id));
                    crate::edge_db::lemma_adjacency_nonzero(*edge_db, current_id);
                    assert(target_id != 0) by {
                        if forward {
                            assert(edge_db.spec_outgoing(current_id as int)[b as int] == target_id);
                        } else {
                            assert(edge_db.spec_incoming(current_id as int)[b as int] == target_id);
                        }
                    }
                    assert(step_ok(*edge_db, current_id, target_id, forward)) by {
                        if forward {
                            assert(edge_db.spec_outgoing(current_id as int).contains(target_id))
                                by {
                                assert(edge_db.spec_outgoing(current_id as int)[b as int]
                                    == target_id);
                            }
                        } else {
                            assert(edge_db.spec_incoming(current_id as int).contains(target_id))
                                by {
                                assert(edge_db.spec_incoming(current_id as int)[b as int]
                                    == target_id);
                            }
                        }
                    }
                    if pre_unv.contains_key(target_id) {
                        assert(pre_cur[target_id] == d + 1);
                        assert(cur =~= pre_cur);
                    } else {
                        assert(!pre_cur.contains_key(target_id)) by {
                            assert(!vis.contains_key(target_id));
                        }
                    }
                    assert(unvisited@[target_id].contains(current_id)) by {
                        assert(unvisited@[target_id].last() == current_id);
                    }
                    assert forall|v: u32, pp: u32|
                        pre_unv.contains_key(v) && pre_unv[v].contains(pp) implies unvisited@.contains_key(
                        v,
                    ) && unvisited@[v].contains(pp) by {
                        let c = choose|c: int| 0 <= c < pre_unv[v].len() && pre_unv[v][c] == pp;
                        if v == target_id {
                            assert(unvisited@[v][c] == pp);
                        } else {
                            assert(unvisited@[v] == pre_unv[v]);
                        }
                    }
                    assert forall|v: u32, j: int|
                        vis.contains_key(v) && 0 <= j < vis[v].len() implies parent_ok(
                        *edge_db,
                        vis,
                        root,
                        cur,
                        forward,
                        v,
                        #[trigger] vis[v][j],
                    ) by {
                        assert(parent_ok(*edge_db, vis, root, pre_cur, forward, v, vis[v][j]));
                        assert(v != target_id);
                        assert(vis[v][j] != target_id || vis[v][j] == 0);
                    }
                    assert forall|v: u32, j: int|
                        unvisited@.contains_key(v) && 0 <= j < unvisited@[v].len() implies parent_ok(
                        *edge_db,
                        vis,
                        root,
                        cur,
                        forward,
                        v,
                        #[trigger] unvisited@[v][j],
                    ) by {
                        if v == target_id && j == unvisited@[v].len() - 1 {
                            assert(unvisited@[v][j] == current_id);
                            assert(current_id != target_id);
                            assert(current_id != 0) by {
                                assert(pre_cur.contains_key(current_id));
                            }
                            assert(parent_ok(
                                *edge_db,
                                vis,
                                root,
                                cur,
                                forward,
                                target_id,
                                current_id,
                            ));
                        } else {
                            assert(pre_unv.contains_key(v) && 0 <= j < pre_unv[v].len()
                                && pre_unv[v][j] == unvisited@[v][j]);
                            assert(parent_ok(
                                *edge_db,
                                vis,
                                root,
                                pre_cur,
                                forward,
                                v,
                                pre_unv[v][j],
                            ));
                            assert(v != target_id || pre_unv.contains_key(target_id));
                            assert(pre_unv[v][j] != target_id || pre_unv[v][j] == 0);
                        }
                    }
                }
            }
            proof {
                assert(cur.contains_key(neighbor_ids@[b as int]) && cur[neighbor_ids@[b as int]]
                    <= d + 1) by {
                    if vis.contains_key(target_id) {
                        assert(cur[target_id] <= d);
                    }
                }
            }
            b += 1;
        }
        proof {
            assert forall|x: int, w: u32|
                0 <= x < a + 1 && #[trigger] spec_neighbor(*edge_db, visit_q@[x], w, forward)
                    implies cur.contains_key(w) && cur[w] <= d + 1 by {
                if x == a {
                    assert(neighbor_ids@.contains(w)) by {
                        if forward {
                            assert(edge_db.spec_outgoing(current_id as int).contains(w));
                        } else {
                            assert(edge_db.spec_incoming(current_id as int).contains(w));
                        }
                    }
                    let y = choose|y: int| 0 <= y < neighbor_ids@.len() && neighbor_ids@[y] == w;
                    assert(cur.contains_key(neighbor_ids@[y]));
                }
            }
            assert forall|x: int, v: u32|
                0 <= x < a + 1 && #[trigger] spec_neighbor(*edge_db, visit_q@[x], v, forward)
                    && !vis.contains_key(v) implies unvisited@.contains_key(v) && unvisited@[
                v].contains(visit_q@[x]) by {
                if x == a {
                    assert(neighbor_ids@.contains(v)) by {
                        if forward {
                            assert(edge_db.spec_outgoing(current_id as int).contains(v));
                        } else {
                            assert(edge_db.spec_incoming(current_id as int).contains(v));
                        }
                    }
                    let y = choose|y: int| 0 <= y < neighbor_ids@.len() && neighbor_ids@[y] == v;
                    assert(unvisited@.contains_key(neighbor_ids@[y]) && unvisited@[
                    neighbor_ids@[y]].contains(current_id));
                }
            }
        }
        a += 1;
    }
    proof {
        assert(side_inv(
            *edge_db,
            visited@,
            unvisited@,
            root,
            cur,
            (d + 1) as nat,
            forward,
        )) by {
            assert forall|u: u32, w: u32|
                vis.contains_key(u) && #[trigger] spec_neighbor(*edge_db, u, w, forward) implies cur.contains_key(
                w,
            ) && cur[w] <= cur[u] + 1 by {
                if cur[u] == d {
                    assert(visit_q@.contains(u));
                    let x = choose|x: int| 0 <= x < visit_q@.len() && visit_q@[x] == u;
                    assert(spec_neighbor(*edge_db, visit_q@[x], w, forward));
                } else {
                    assert(cur[u] < d);
                }
            }
            assert forall|u: u32, v: u32|
                cur.contains_key(u) && cur.contains_key(v) && cur[u] + 1 == cur[v]
                    && #[trigger] spec_neighbor(*edge_db, u, v, forward) implies (vis.contains_key(
                v,
            ) ==> vis[v].contains(u)) && (unvisited@.contains_key(v) ==> unvisited@[v].contains(
                u,
            )) by {
                if cur[v] <= d {
                    assert(vis[v].contains(u));
                    assert(!unvisited@.contains_key(v));
                } else {
                    assert(cur[v] == d + 1);
                    assert(!vis.contains_key(v));
                    if unvisited@.contains_key(v) {
                        assert(cur[u] == d);
                        assert(visit_q@.contains(u));
                        let x = choose|x: int| 0 <= x < visit_q@.len() && visit_q@[x] == u;
                        assert(spec_neighbor(*edge_db, visit_q@[x], v, forward));
                        assert(unvisited@[v].contains(visit_q@[x]));
                    }
                }
            }
        }
    }
    Ghost(cur)
}

/// Folding a frontier into the visited map keeps every recorded parent
/// sound: parents previously justified against the visited map alone stay
/// justified against the union.
proof fn lemma_map_ok_after_merge(
    db: EdgeDB,
    vf: Map<u32, Seq<u32>>,
    uf: Map<u32, Seq<u32>>,
    root: u32,
    lvl: Map<u32, nat>,
    forward: bool,
)
    requires
        map_ok(db, vf, vf, root, lvl, forward),
        map_ok(db, vf, uf, root, lvl, forward),
    ensures
        map_ok(db, merged(vf, uf), merged(vf, uf), root, lvl, forward),
{
    let m = merged(vf, uf);
    assert forall|v: u32, j: int|
        m.contains_key(v) && 0 <= j < m[v].len() implies parent_ok(
        db,
        m,
        root,
        lvl,
        forward,
        v,
        #[trigger] m[v][j],
    ) by {
        if vf.contains_key(v) && uf.contains_key(v) {
            if j < vf[v].len() {
                assert(m[v][j] == vf[v][j]);
                assert(parent_ok(db, vf, root, lvl, forward, v, vf[v][j]));
            } else {
                assert(m[v][j] == uf[v][j - vf[v].len()]);
                assert(parent_ok(db, vf, root, lvl, forward, v, uf[v][j - vf[v].len()]));
            }
        } else if vf.contains_key(v) {
            assert(m[v][j] == vf[v][j]);
            assert(parent_ok(db, vf, root, lvl, forward, v, vf[v][j]));
        } else {
            assert(m[v][j] == uf[v][j]);
            assert(parent_ok(db, vf, root, lvl, forward, v, uf[v][j]));
        }
    }
}

/// A proper subset of a finite set is strictly smaller.
proof fn lemma_len_proper_subset(a: Set<u32>, b: Set<u32>, x: u32)
    requires
        b.finite(),
        a.subset_of(b),
        b.contains(x),
        !a.contains(x),
    ensures
        a.len() < b.len(),
        a.finite(),
{
    let b2 = b.remove(x);
    assert(a.subset_of(b2));
    vstd::set_lib::lemma_len_subset(a, b2);
}

/// How much of the search is still to do: vertices not yet levelled on
/// either side, weighted double, plus one for each non-empty frontier.
/// Every round either levels a new vertex or empties the frontier it
/// expands, so the measure falls and the search terminates.
pub open spec fn search_measure(
    lvl_f: Map<u32, nat>,
    lvl_b: Map<u32, nat>,
    uf: Map<u32, Seq<u32>>,
    ub: Map<u32, Seq<u32>>,
) -> int {
    2 * (Set::<u32>::full().len() - lvl_f.dom().len()) + 2 * (Set::<u32>::full().len()
        - lvl_b.dom().len()) + (if uf.dom() == Set::<u32>::empty() {
        0int
    } else {
        1int
    }) + (if ub.dom() == Set::<u32>::empty() {
        0int
    } else {
        1int
    })
}

/// A levelled-vertex set counts at most every vertex id.
proof fn lemma_lvl_dom_bound(lvl: Map<u32, nat>)
    requires
        lvl.dom().finite(),
    ensures
        lvl.dom().len() <= Set::<u32>::full().len(),
{
    broadcast use vstd::set_lib::full_set_properties;
    assert(lvl.dom().subset_of(Set::<u32>::full()));
    vstd::set_lib::lemma_len_subset(lvl.dom(), Set::<u32>::full());
}

/// While the two levelled regions are disjoint, every path from source to
/// destination is longer than the two depths combined allow: its crossing
/// vertex would have to sit in both regions.
proof fn lemma_paths_lengthen(
    db: EdgeDB,
    src: u32,
    dst: u32,
    vf: Map<u32, Seq<u32>>,
    uf: Map<u32, Seq<u32>>,
    lvl_f: Map<u32, nat>,
    df: nat,
    vb: Map<u32, Seq<u32>>,
    ub: Map<u32, Seq<u32>>,
    lvl_b: Map<u32, nat>,
    dbk: nat,
)
    requires
        db.consistent(),
        src != dst,
        side_inv(db, vf, uf, src, lvl_f, df, true),
        side_inv(db, vb, ub, dst, lvl_b, dbk, false),
        forall|v: u32| #[trigger] lvl_f.contains_key(v) ==> !lvl_b.contains_key(v),
        forall|q: Seq<u32>| #[trigger] valid_search_path(db, src, dst, q) ==> q.len() + 1 >= df
            + dbk,
    ensures
        forall|q: Seq<u32>| #[trigger] valid_search_path(db, src, dst, q) ==> q.len() >= df + dbk,
{
    assert forall|q: Seq<u32>| #[trigger] valid_search_path(db, src, dst, q) implies q.len() >= df
        + dbk by {
        if q.len() < df + dbk {
            assert(q.len() + 1 == df + dbk);
            let w = q[df - 1];
            let qf = q.take(df as int);
            assert(dir_chain(db, qf, true)) by {
                assert forall|i: int| 0 <= i < qf.len() - 1 implies #[trigger] spec_neighbor(
                    db,
                    qf[i],
                    qf[i + 1],
                    true,
                ) by {
                    assert(step_ok(db, q[i], q[i + 1], true));
                }
            }
            lemma_confine(db, vf, uf, src, lvl_f, df, true, qf);
            assert(qf.last() == w);
            let qb = q.skip(df - 1).reverse();
            assert(qb.len() == dbk);
            assert(qb[0] == dst) by {
                assert(qb[0] == q.skip(df - 1)[q.skip(df - 1).len() - 1]);
                assert(q.skip(df - 1).last() == q.last());
            }
            assert(dir_chain(db, qb, false)) by {
                assert forall|i: int| 0 <= i < qb.len() - 1 implies #[trigger] spec_neighbor(
                    db,
                    qb[i],
                    qb[i + 1],
                    false,
                ) by {
                    let base = df - 1;
                    let a = qb.len() - 1 - i;
                    assert(qb[i] == q.skip(base)[a]);
                    assert(qb[i + 1] == q.skip(base)[a - 1]);
                    assert(q.skip(base)[a] == q[base + a]);
                    assert(q.skip(base)[a - 1] == q[base + a - 1]);
                    assert(step_ok(db, q[base + a - 1], q[base + a - 1 + 1], true));
                    assert(db.spec_outgoing(q[base + a - 1] as int).contains(q[base + a]));
                    assert(db.spec_incoming(q[base + a] as int).contains(q[base + a - 1]));
                }
            }
            lemma_confine(db, vb, ub, dst, lvl_b, dbk, false, qb);
            assert(qb.last() == w) by {
                assert(qb.last() == q.skip(df - 1)[0]);
            }
            assert(lvl_f.contains_key(w));
            assert(lvl_b.contains_key(w));
            assert(false);
        }
    }
}

/// A path of the shortest length splits at the meeting vertex, one level
/// deep in each frontier, into two anchored parent chains.
proof fn lemma_split_minimal(
    db: EdgeDB,
    src: u32,
    dst: u32,
    vf: Map<u32, Seq<u32>>,
    uf: Map<u32, Seq<u32>>,
    lvl_f: Map<u32, nat>,
    df: nat,
    vb: Map<u32, Seq<u32>>,
    ub: Map<u32, Seq<u32>>,
    lvl_b: Map<u32, nat>,
    dbk: nat,
    q: Seq<u32>,
)
    requires
        db.consistent(),
        src != dst,
        side_inv(db, vf, uf, src, lvl_f, df, true),
        side_inv(db, vb, ub, dst, lvl_b, dbk, false),
        valid_search_path(db, src, dst, q),
        q.len() + 1 == df + dbk,
        forall|q2: Seq<u32>| #[trigger] valid_search_path(db, src, dst, q2) ==> q2.len() + 1 >= df
            + dbk,
    ensures
        ({
            let w = q[df - 1];
            let pf = q.take(df - 1);
            let pb = q.skip(df as int).reverse();
            &&& uf.contains_key(w) && ub.contains_key(w)
            &&& pf.len() + 1 == df && pb.len() + 1 == dbk
            &&& (pf.len() > 0 ==> uf[w].contains(pf.last()) && anchored_chain(vf, pf))
            &&& (pb.len() > 0 ==> ub[w].contains(pb.last()) && anchored_chain(vb, pb))
            &&& q == pf + seq![w] + pb.reverse()
        }),
{
    let w = q[df - 1];
    let pf = q.take(df - 1);
    let pb = q.skip(df as int).reverse();
    // forward levels along the prefix are exact
    assert forall|k: int| 0 <= k < df implies lvl_f.contains_key(#[trigger] q[k]) && lvl_f[q[k]]
        == k + 1 by {
        let qk = q.take(k + 1);
        assert(dir_chain(db, qk, true)) by {
            assert forall|i: int| 0 <= i < qk.len() - 1 implies #[trigger] spec_neighbor(
                db,
                qk[i],
                qk[i + 1],
                true,
            ) by {
                assert(step_ok(db, q[i], q[i + 1], true));
            }
        }
        lemma_confine(db, vf, uf, src, lvl_f, df, true, qk);
        assert(qk.last() == q[k]);
        if lvl_f[q[k]] < k + 1 {
            lemma_level_path(db, vf, uf, src, lvl_f, df, true, q[k]);
            let q1 = choose|q1: Seq<u32>|
                #[trigger] chain_ok(db, q1, true) && q1.len() == lvl_f[q[k]] && q1.len() >= 1
                    && q1[0] == src && q1.last() == q[k];
            let q2 = q.skip(k);
            assert(chain_ok(db, q2, true)) by {
                assert forall|i: int| 0 <= i < q2.len() - 1 implies #[trigger] step_ok(
                    db,
                    q2[i],
                    q2[i + 1],
                    true,
                ) by {
                    assert(step_ok(db, q[k + i], q[k + i + 1], true));
                }
            }
            assert(q2[0] == q[k]);
            assert(q2.last() == q.last());
            lemma_chain_concat(db, q1, q2);
            let qs = q1 + q2.skip(1);
            assert(valid_search_path(db, src, dst, qs));
            assert(qs.len() < q.len());
            assert(false);
        }
    }
    // backward levels along the suffix are exact
    assert forall|t: int| 0 <= t < dbk implies lvl_b.contains_key(#[trigger] q[q.len() - 1 - t])
        && lvl_b[q[q.len() - 1 - t]] == t + 1 by {
        let qk = q.skip(q.len() - 1 - t).reverse();
        assert(qk.len() == t + 1);
        assert(qk[0] == dst) by {
            assert(qk[0] == q.skip(q.len() - 1 - t)[q.skip(q.len() - 1 - t).len() - 1]);
            assert(q.skip(q.len() - 1 - t).last() == q.last());
        }
        assert(dir_chain(db, qk, false)) by {
            assert forall|i: int| 0 <= i < qk.len() - 1 implies #[trigger] spec_neighbor(
                db,
                qk[i],
                qk[i + 1],
                false,
            ) by {
                let base = q.len() - 1 - t;
                let a = qk.len() - 1 - i;
                assert(qk[i] == q.skip(base)[a]);
                assert(qk[i + 1] == q.skip(base)[a - 1]);
                assert(q.skip(base)[a] == q[base + a]);
                assert(q.skip(base)[a - 1] == q[base + a - 1]);
                assert(step_ok(db, q[base + a - 1], q[base + a - 1 + 1], true));
                assert(db.spec_outgoing(q[base + a - 1] as int).contains(q[base + a]));
                assert(db.spec_incoming(q[base + a] as int).contains(q[base + a - 1]));
            }
        }
        lemma_confine(db, vb, ub, dst, lvl_b, dbk, false, qk);
        assert(qk.last() == q[q.len() - 1 - t]) by {
            assert(qk.last() == q.skip(q.len() - 1 - t)[0]);
        }
        if lvl_b[q[q.len() - 1 - t]] < t + 1 {
            let v = q[q.len() - 1 - t];
            lemma_level_path(db, vb, ub, dst, lvl_b, dbk, false, v);
            let q2 = choose|q2: Seq<u32>|
                #[trigger] chain_ok(db, q2, true) && q2.len() == lvl_b[v] && q2.len() >= 1 && q2[0]
                    == v && q2.last() == dst;
            let q1 = q.take(q.len() - t);
            assert(chain_ok(db, q1, true)) by {
                assert forall|i: int| 0 <= i < q1.len() - 1 implies #[trigger] step_ok(
                    db,
                    q1[i],
                    q1[i + 1],
                    true,
                ) by {
                    assert(step_ok(db, q[i], q[i + 1], true));
                }
            }
            assert(q1.last() == v);
            assert(q1[0] == src);
            lemma_chain_concat(db, q1, q2);
            let qs = q1 + q2.skip(1);
            assert(valid_search_path(db, src, dst, qs));
            assert(qs.len() < q.len());
            assert(false);
        }
    }
    assert(lvl_f[w] == df);
    assert(uf.contains_key(w)) by {
        if vf.contains_key(w) {
            assert(lvl_f[w] < df);
        }
    }
    assert(lvl_b.contains_key(q[q.len() - 1 - (dbk - 1)]) && lvl_b[q[q.len() - 1 - (dbk - 1)]]
        == dbk);
    assert(q[q.len() - 1 - (dbk - 1)] == w);
    assert(ub.contains_key(w)) by {
        if vb.contains_key(w) {
            assert(lvl_b[w] < dbk);
        }
    }
    // the forward half is an anchored chain ending at one of w's parents
    if pf.len() > 0 {
        assert(uf[w].contains(pf.last())) by {
            assert(spec_neighbor(db, q[df - 2], w, true)) by {
                assert(step_ok(db, q[df - 2], q[df - 2 + 1], true));
            }
            assert(lvl_f[q[df - 2]] + 1 == lvl_f[w]);
            assert(pf.last() == q[df - 2]);
        }
        assert(anchored_chain(vf, pf)) by {
            assert(pf[0] == q[0]);
            assert(lvl_f[q[0]] == 1);
            assert(vf.contains_key(q[0])) by {
                assert(lvl_f[q[0]] < df) by {
                    assert(lvl_f[w] == df);
                    assert(pf.len() > 0);
                }
                if uf.contains_key(q[0]) {
                    assert(lvl_f[q[0]] == df);
                }
            }
            assert(vf[q[0]].contains(0u32)) by {
                assert(q[0] == src);
            }
            assert forall|k: int| 0 <= k < pf.len() - 1 implies vf.contains_key(
                #[trigger] pf[k + 1],
            ) && vf[pf[k + 1]].contains(pf[k]) by {
                assert(pf[k + 1] == q[k + 1]);
                assert(pf[k] == q[k]);
                assert(lvl_f[q[k + 1]] < df);
                assert(vf.contains_key(q[k + 1])) by {
                    if uf.contains_key(q[k + 1]) {
                        assert(lvl_f[q[k + 1]] == df);
                    }
                }
                assert(spec_neighbor(db, q[k], q[k + 1], true)) by {
                    assert(step_ok(db, q[k], q[k + 1], true));
                }
                assert(lvl_f[q[k]] + 1 == lvl_f[q[k + 1]]);
            }
        }
    }
    // the backward half likewise
    if pb.len() > 0 {
        assert forall|t: int| 0 <= t < pb.len() implies #[trigger] pb[t] == q[q.len() - 1 - t] by {
            assert(pb[t] == q.skip(df as int)[q.skip(df as int).len() - 1 - t]);
        }
        assert(ub[w].contains(pb.last())) by {
            assert(pb.last() == q[df as int]);
            assert(spec_neighbor(db, q[df as int], w, false)) by {
                assert(step_ok(db, q[df - 1], q[df - 1 + 1], true));
                assert(db.spec_outgoing(w as int).contains(q[df as int]));
                assert(db.spec_incoming(q[df as int] as int).contains(w));
            }
            assert(lvl_b[q[df as int]] == dbk - 1) by {
                assert(lvl_b[q[q.len() - 1 - (dbk - 2)]] == dbk - 1);
                assert(q.len() - 1 - (dbk - 2) == df);
            }
        }
        assert(anchored_chain(vb, pb)) by {
            assert(pb[0] == q[q.len() - 1]);
            assert(pb[0] == dst);
            assert(lvl_b[dst] == 1);
            assert(vb.contains_key(dst)) by {
                assert(lvl_b[w] == dbk);
                assert(pb.len() > 0);
                if ub.contains_key(dst) {
                    assert(lvl_b[dst] == dbk);
                }
            }
            assert(vb[dst].contains(0u32));
            assert forall|t: int| 0 <= t < pb.len() - 1 implies vb.contains_key(
                #[trigger] pb[t + 1],
            ) && vb[pb[t + 1]].contains(pb[t]) by {
                assert(pb[t + 1] == q[q.len() - 2 - t]);
                assert(pb[t] == q[q.len() - 1 - t]);
                assert(lvl_b[q[q.len() - 1 - t]] == t + 1);
                assert(lvl_b[q[q.len() - 2 - t]] == t + 2) by {
                    assert(lvl_b[q[q.len() - 1 - (t + 1)]] == t + 2);
                }
                assert(vb.contains_key(q[q.len() - 2 - t])) by {
                    if ub.contains_key(q[q.len() - 2 - t]) {
                        assert(lvl_b[q[q.len() - 2 - t]] == dbk);
                        assert(t + 2 == dbk);
                        assert(q.len() - 2 - t == df - 1);
                        assert(q[df - 1] == w);
                    }
                }
                assert(spec_neighbor(db, q[q.len() - 1 - t], q[q.len() - 2 - t], false)) by {
                    assert(step_ok(db, q[q.len() - 2 - t], q[q.len() - 2 - t + 1], true));
                    assert(db.spec_outgoing(q[q.len() - 2 - t] as int).contains(
                        q[q.len() - 1 - t],
                    ));
                    assert(db.spec_incoming(q[q.len() - 1 - t] as int).contains(
                        q[q.len() - 2 - t],
                    ));
                }
            }
        }
    }
    assert(q =~= pf + seq![w] + pb.reverse()) by {
        assert(pb.reverse() =~= q.skip(df as int));
    }
}

/// A path assembled at a meeting vertex never repeats a vertex: levels are
/// injective within each half, the halves live in disjoint regions, and the
/// meeting vertex belongs to neither visited map.
proof fn lemma_meet_path_simple(
    vf: Map<u32, Seq<u32>>,
    lvl_f: Map<u32, nat>,
    vb: Map<u32, Seq<u32>>,
    lvl_b: Map<u32, nat>,
    m: u32,
    pf: Seq<u32>,
    pb: Seq<u32>,
    q: Seq<u32>,
)
    requires
        q.len() == pf.len() + 1 + pb.len(),
        forall|i: int| 0 <= i < pf.len() ==> #[trigger] q[i] == pf[i],
        q[pf.len() as int] == m,
        forall|i: int| 0 <= i < pb.len() ==> #[trigger] q[pf.len() + 1 + i] == pb[pb.len() - 1
            - i],
        forall|k: int|
            0 <= k < pf.len() ==> vf.contains_key(#[trigger] pf[k]) && lvl_f.contains_key(pf[k])
                && lvl_f[pf[k]] == k + 1,
        forall|k: int|
            0 <= k < pb.len() ==> vb.contains_key(#[trigger] pb[k]) && lvl_b.contains_key(pb[k])
                && lvl_b[pb[k]] == k + 1,
        !vf.contains_key(m),
        !vb.contains_key(m),
        forall|v: u32| #[trigger] vf.contains_key(v) ==> !vb.contains_key(v),
    ensures
        q.no_duplicates(),
{
    assert forall|i: int, j: int|
        0 <= i < q.len() && 0 <= j < q.len() && i != j implies q[i] != q[j] by {
        let flen = pf.len() as int;
        if i < flen && j < flen {
            assert(q[i] == pf[i] && q[j] == pf[j]);
            if pf[i] == pf[j] {
                assert(lvl_f[pf[i]] == i + 1 && lvl_f[pf[j]] == j + 1);
            }
        } else if i < flen && j == flen {
            assert(vf.contains_key(pf[i]));
        } else if i == flen && j < flen {
            assert(vf.contains_key(pf[j]));
        } else if i < flen {
            let j0 = j - flen - 1;
            assert(q[flen + 1 + j0] == pb[pb.len() - 1 - j0]);
            assert(vf.contains_key(pf[i]));
            assert(vb.contains_key(pb[pb.len() - 1 - j0]));
        } else if j < flen {
            let i0 = i - flen - 1;
            assert(q[flen + 1 + i0] == pb[pb.len() - 1 - i0]);
            assert(vf.contains_key(pf[j]));
            assert(vb.contains_key(pb[pb.len() - 1 - i0]));
        } else if i == flen {
            let j0 = j - flen - 1;
            assert(q[flen + 1 + j0] == pb[pb.len() - 1 - j0]);
            assert(vb.contains_key(pb[pb.len() - 1 - j0]));
        } else if j == flen {
            let i0 = i - flen - 1;
            assert(q[flen + 1 + i0] == pb[pb.len() - 1 - i0]);
            assert(vb.contains_key(pb[pb.len() - 1 - i0]));
        } else {
            let i0 = i - flen - 1;
            let j0 = j - flen - 1;
            let a = pb.len() - 1 - i0;
            let b = pb.len() - 1 - j0;
            assert(q[flen + 1 + i0] == pb[pb.len() - 1 - i0]);
            assert(q[flen + 1 + j0] == pb[pb.len() - 1 - j0]);
            assert(q[i] == pb[a] && q[j] == pb[b]);
            if pb[a] == pb[b] {
                assert(lvl_b[pb[a]] == a + 1 && lvl_b[pb[b]] == b + 1);
            }
        }
    }
}

/// A path the search may return: it starts at the source, ends at the
/// destination, and follows stored edges.
pub open spec fn valid_search_path(db: EdgeDB, src: u32, dst: u32, q: Seq<u32>) -> bool {
    &&& q.len() >= 1
    &&& q[0] == src
    &&& q.last() == dst
    &&& chain_ok(db, q, true)
}

/// All shortest paths from source to destination over the adjacency store.
///
/// A path exists exactly when the answer is nonempty. Every returned path
/// starts at the source, ends at the destination, follows stored edges,
/// repeats no vertex, and is no longer than any path at all; all returned
/// paths share that minimal length, every path of that length is returned,
/// and none is returned twice. A query from a vertex to itself is answered
/// by the one-vertex path alone.
#[verifier::rlimit(100)]
pub fn breadth_first_search(source_vertex_id: u32, dest_vertex_id: u32, edge_db: &EdgeDB) -> (paths:
    Vec<Vec<u32>>)
    requires
        edge_db.wf(),
        edge_db.consistent(),
        source_vertex_id != 0,
        dest_vertex_id != 0,
    ensures
        source_vertex_id == dest_vertex_id ==> paths@.len() == 1 && paths@[0]@ == seq![
            source_vertex_id,
        ],
        forall|i: int|
            0 <= i < paths@.len() ==> valid_search_path(
                *edge_db,
                source_vertex_id,
                dest_vertex_id,
                #[trigger] paths@[i]@,
            ),
        forall|i: int, j: int|
            0 <= i < paths@.len() && 0 <= j < paths@.len() ==> (#[trigger] paths@[i]@).len() == (
            #[trigger] paths@[j]@).len(),
        forall|i: int, j: int|
            0 <= i < paths@.len() && 0 <= j < paths@.len() && i != j ==> (#[trigger] paths@[i]@)
                != (#[trigger] paths@[j]@),
        (exists|q: Seq<u32>|
            #[trigger] valid_search_path(*edge_db, source_vertex_id, dest_vertex_id, q)) <==> paths@.len()
            > 0,
        forall|i: int, q: Seq<u32>|
            0 <= i < paths@.len() && #[trigger] valid_search_path(
                *edge_db,
                source_vertex_id,
                dest_vertex_id,
                q,
            ) ==> (#[trigger] paths@[i]@).len() <= q.len(),
        forall|q: Seq<u32>|
            paths@.len() > 0 && #[trigger] valid_search_path(
                *edge_db,
                source_vertex_id,
                dest_vertex_id,
                q,
            ) && q.len() == paths@[0]@.len() ==> exists|i: int|
                0 <= i < paths@.len() && (#[trigger] paths@[i]@) == q,
        forall|i: int| 0 <= i < paths@.len() ==> (#[trigger] paths@[i]@).no_duplicates(),
{
    let src = source_vertex_id;
    let dst = dest_vertex_id;
    let mut paths: Vec<Vec<u32>> = Vec::new();
    if src == dst {
        let mut single: Vec<u32> = Vec::new();
        single.push(src);
        paths.push(single);
        proof {
            assert(paths@[0]@ =~= seq![src]);
            assert(valid_search_path(*edge_db, src, dst, paths@[0]@));
            assert(paths@[0]@.no_duplicates());
            assert forall|q: Seq<u32>|
                paths@.len() > 0 && #[trigger] valid_search_path(*edge_db, src, dst, q) && q.len()
                    == paths@[0]@.len() implies exists|i: int|
                0 <= i < paths@.len() && (#[trigger] paths@[i]@) == q by {
                assert(q =~= seq![src]);
                assert(paths@[0]@ == q);
            }
        }
        return paths;
    }
    let mut unvisited_forward = NeighborList::new();
    let mut unvisited_backward = NeighborList::new();
    unvisited_forward.record(src, 0);
    unvisited_backward.record(dst, 0);
    let mut visited_forward = NeighborList::new();
    let mut visited_backward = NeighborList::new();
    let ghost mut lvl_f: Map<u32, nat> = Map::<u32, nat>::empty().insert(src, 1nat);
    let ghost mut lvl_b: Map<u32, nat> = Map::<u32, nat>::empty().insert(dst, 1nat);
    let ghost mut df: nat = 1nat;
    let ghost mut dbk: nat = 1nat;
    proof {
        broadcast use vstd::set::group_set_axioms;
        assert(lvl_f.dom() =~= Set::<u32>::empty().insert(src));
        assert(lvl_b.dom() =~= Set::<u32>::empty().insert(dst));
        assert(Seq::<u32>::empty().push(0u32)[0] == 0u32);
        assert(Seq::<u32>::empty().push(0u32).contains(0u32));
        assert(unvisited_forward@[src].contains(0u32)) by {
            assert(unvisited_forward@[src] == Seq::<u32>::empty().push(0u32));
        }
        assert(unvisited_backward@[dst].contains(0u32)) by {
            assert(unvisited_backward@[dst] == Seq::<u32>::empty().push(0u32));
        }
        assert(side_inv(*edge_db, visited_forward@, unvisited_forward@, src, lvl_f, df, true)) by {
            assert forall|v: u32, j: int|
                unvisited_forward@.contains_key(v) && 0 <= j < unvisited_forward@[v].len() implies parent_ok(
                *edge_db,
                visited_forward@,
                src,
                lvl_f,
                true,
                v,
                #[trigger] unvisited_forward@[v][j],
            ) by {
                assert(v == src);
                assert(unvisited_forward@[v] == Seq::<u32>::empty().push(0u32));
                assert(unvisited_forward@[v][j] == 0u32);
            }
        }
        assert(side_inv(*edge_db, visited_backward@, unvisited_backward@, dst, lvl_b, dbk, false))
            by {
            assert forall|v: u32, j: int|
                unvisited_backward@.contains_key(v) && 0 <= j < unvisited_backward@[v].len() implies parent_ok(
                *edge_db,
                visited_backward@,
                dst,
                lvl_b,
                false,
                v,
                #[trigger] unvisited_backward@[v][j],
            ) by {
                assert(v == dst);
                assert(unvisited_backward@[v] == Seq::<u32>::empty().push(0u32));
                assert(unvisited_backward@[v][j] == 0u32);
            }
        }
    }
    while paths.len() == 0 && unvisited_forward.has_some() && unvisited_backward.has_some()
        invariant
            edge_db.wf(),
            edge_db.consistent(),
            src != 0,
            dst != 0,
            src != dst,
            unvisited_forward.wf(),
            unvisited_backward.wf(),
            visited_forward.wf(),
            visited_backward.wf(),
            side_inv(*edge_db, visited_forward@, unvisited_forward@, src, lvl_f, df, true),
            side_inv(*edge_db, visited_backward@, unvisited_backward@, dst, lvl_b, dbk, false),
            lvl_f.dom().finite(),
            lvl_b.dom().finite(),
            paths@.len() == 0 ==> forall|v: u32| #[trigger] lvl_f.contains_key(v)
                ==> !lvl_b.contains_key(v),
            forall|q: Seq<u32>| #[trigger] valid_search_path(*edge_db, src, dst, q) ==> q.len() + 1
                >= df + dbk,
            forall|i: int|
                0 <= i < paths@.len() ==> valid_search_path(
                    *edge_db,
                    src,
                    dst,
                    #[trigger] paths@[i]@,
                ),
            forall|i: int| 0 <= i < paths@.len() ==> (#[trigger] paths@[i]@).len() + 1 == df + dbk,
            forall|i: int, j: int|
                0 <= i < paths@.len() && 0 <= j < paths@.len() && i != j ==> (
                #[trigger] paths@[i]@) != (#[trigger] paths@[j]@),
            forall|i: int| 0 <= i < paths@.len() ==> (#[trigger] paths@[i]@).no_duplicates(),
            paths@.len() > 0 ==> forall|q: Seq<u32>|
                #[trigger] valid_search_path(*edge_db, src, dst, q) && q.len() + 1 == df + dbk
                    ==> exists|i: int| 0 <= i < paths@.len() && (#[trigger] paths@[i]@) == q,
        decreases search_measure(lvl_f, lvl_b, unvisited_forward@, unvisited_backward@),
    {
        let ghost lvl_f0 = lvl_f;
        let ghost lvl_b0 = lvl_b;
        let ghost vf0 = visited_forward@;
        let ghost vb0 = visited_backward@;
        let ghost uf0 = unvisited_forward@;
        let ghost ub0 = unvisited_backward@;
        let ghost df0 = df;
        let ghost dbk0 = dbk;
        proof {
            assert(uf0.dom() != Set::<u32>::empty());
            assert(ub0.dom() != Set::<u32>::empty());
        }
        let forward_visit_q = unvisited_forward.all();
        let backward_visit_q = unvisited_backward.all();
        let forward_links_count = count_edges(&forward_visit_q, &EdgeDirection::Outgoing, edge_db);
        let backward_links_count = count_edges(
            &backward_visit_q,
            &EdgeDirection::Incoming,
            edge_db,
        );
        if forward_links_count < backward_links_count {
            let Ghost(nl) = expand_frontier(
                &mut visited_forward,
                &mut unvisited_forward,
                edge_db,
                true,
                Ghost(src),
                Ghost(lvl_f),
                Ghost(df),
            );
            proof {
                lvl_f = nl;
                df = df + 1;
            }
        } else {
            let Ghost(nl) = expand_frontier(
                &mut visited_backward,
                &mut unvisited_backward,
                edge_db,
                false,
                Ghost(dst),
                Ghost(lvl_b),
                Ghost(dbk),
            );
            proof {
                lvl_b = nl;
                dbk = dbk + 1;
            }
        }
        proof {
            // each path now needs one more level than before
            lemma_paths_lengthen(
                *edge_db,
                src,
                dst,
                vf0,
                uf0,
                lvl_f0,
                df0,
                vb0,
                ub0,
                lvl_b0,
                dbk0,
            );
            assert forall|q: Seq<u32>|
                #[trigger] valid_search_path(*edge_db, src, dst, q) implies q.len() + 1 >= df
                + dbk by {
                assert(q.len() >= df0 + dbk0);
            }
            // the measure falls: either a vertex was levelled for the first
            // time, or the expanded frontier died
            broadcast use vstd::set_lib::full_set_properties;
            lemma_lvl_dom_bound(lvl_f);
            lemma_lvl_dom_bound(lvl_f0);
            lemma_lvl_dom_bound(lvl_b);
            lemma_lvl_dom_bound(lvl_b0);
            assert(lvl_f0.dom().subset_of(lvl_f.dom())) by {
                assert forall|v: u32| lvl_f0.dom().contains(v) implies lvl_f.dom().contains(v) by {
                    assert(lvl_f0.contains_key(v));
                }
            }
            assert(lvl_b0.dom().subset_of(lvl_b.dom())) by {
                assert forall|v: u32| lvl_b0.dom().contains(v) implies lvl_b.dom().contains(v) by {
                    assert(lvl_b0.contains_key(v));
                }
            }
            if df == df0 + 1 {
                if unvisited_forward@.dom() != Set::<u32>::empty() {
                    assert(exists|x: u32| unvisited_forward@.dom().contains(x)) by {
                        if !(exists|x: u32| unvisited_forward@.dom().contains(x)) {
                            assert(unvisited_forward@.dom() =~= Set::<u32>::empty());
                        }
                    }
                    let x = choose|x: u32| unvisited_forward@.dom().contains(x);
                    assert(unvisited_forward@.contains_key(x));
                    assert(!lvl_f0.contains_key(x));
                    assert(lvl_f.contains_key(x));
                    lemma_len_proper_subset(lvl_f0.dom(), lvl_f.dom(), x);
                    assert(search_measure(lvl_f, lvl_b, unvisited_forward@, unvisited_backward@)
                        < search_measure(lvl_f0, lvl_b0, uf0, ub0));
                } else {
                    assert(lvl_f.dom() =~= lvl_f0.dom()) by {
                        assert forall|v: u32| lvl_f.contains_key(v) implies lvl_f0.contains_key(
                            v,
                        ) by {
                            if unvisited_forward@.contains_key(v) {
                                assert(unvisited_forward@.dom().contains(v));
                            }
                            assert(visited_forward@.contains_key(v));
                        }
                    }
                    assert(search_measure(lvl_f, lvl_b, unvisited_forward@, unvisited_backward@)
                        < search_measure(lvl_f0, lvl_b0, uf0, ub0));
                }
            } else {
                if unvisited_backward@.dom() != Set::<u32>::empty() {
                    assert(exists|x: u32| unvisited_backward@.dom().contains(x)) by {
                        if !(exists|x: u32| unvisited_backward@.dom().contains(x)) {
                            assert(unvisited_backward@.dom() =~= Set::<u32>::empty());
                        }
                    }
                    let x = choose|x: u32| unvisited_backward@.dom().contains(x);
                    assert(unvisited_backward@.contains_key(x));
                    assert(!lvl_b0.contains_key(x));
                    assert(lvl_b.contains_key(x));
                    lemma_len_proper_subset(lvl_b0.dom(), lvl_b.dom(), x);
                    assert(search_measure(lvl_f, lvl_b, unvisited_forward@, unvisited_backward@)
                        < search_measure(lvl_f0, lvl_b0, uf0, ub0));
                } else {
                    assert(lvl_b.dom() =~= lvl_b0.dom()) by {
                        assert forall|v: u32| lvl_b.contains_key(v) implies lvl_b0.contains_key(
                            v,
                        ) by {
                            if unvisited_backward@.contains_key(v) {
                                assert(unvisited_backward@.dom().contains(v));
                            }
                            assert(visited_backward@.contains_key(v));
                        }
                    }
                    assert(search_measure(lvl_f, lvl_b, unvisited_forward@, unvisited_backward@)
                        < search_measure(lvl_f0, lvl_b0, uf0, ub0));
                }
            }
            // the two visited interiors stay clear of the other region
            assert forall|v: u32| #[trigger] visited_forward@.contains_key(v) implies !lvl_b.contains_key(
                v,
            ) by {
                if lvl_b.contains_key(v) {
                    if df == df0 + 1 {
                        assert(lvl_f0.contains_key(v));
                        assert(lvl_b == lvl_b0);
                    } else {
                        assert(lvl_f0.contains_key(v));
                        if lvl_b0.contains_key(v) {
                        } else {
                            assert(unvisited_backward@.contains_key(v));
                            lemma_level_path(
                                *edge_db,
                                visited_forward@,
                                unvisited_forward@,
                                src,
                                lvl_f,
                                df,
                                true,
                                v,
                            );
                            let q1 = choose|q1: Seq<u32>|
                                #[trigger] chain_ok(*edge_db, q1, true) && q1.len() == lvl_f[v]
                                    && q1.len() >= 1 && q1[0] == src && q1.last() == v;
                            lemma_level_path(
                                *edge_db,
                                visited_backward@,
                                unvisited_backward@,
                                dst,
                                lvl_b,
                                dbk,
                                false,
                                v,
                            );
                            let q2 = choose|q2: Seq<u32>|
                                #[trigger] chain_ok(*edge_db, q2, true) && q2.len() == lvl_b[v]
                                    && q2.len() >= 1 && q2[0] == v && q2.last() == dst;
                            lemma_chain_concat(*edge_db, q1, q2);
                            let qs = q1 + q2.skip(1);
                            assert(valid_search_path(*edge_db, src, dst, qs));
                            assert(lvl_f[v] < df);
                            assert(qs.len() + 1 < df + dbk);
                            assert(false);
                        }
                    }
                }
            }
            assert forall|v: u32| #[trigger] visited_backward@.contains_key(v) implies !lvl_f.contains_key(
                v,
            ) by {
                if lvl_f.contains_key(v) {
                    if df == df0 + 1 {
                        assert(lvl_b0.contains_key(v));
                        if lvl_f0.contains_key(v) {
                        } else {
                            assert(unvisited_forward@.contains_key(v));
                            lemma_level_path(
                                *edge_db,
                                visited_forward@,
                                unvisited_forward@,
                                src,
                                lvl_f,
                                df,
                                true,
                                v,
                            );
                            let q1 = choose|q1: Seq<u32>|
                                #[trigger] chain_ok(*edge_db, q1, true) && q1.len() == lvl_f[v]
                                    && q1.len() >= 1 && q1[0] == src && q1.last() == v;
                            lemma_level_path(
                                *edge_db,
                                visited_backward@,
                                unvisited_backward@,
                                dst,
                                lvl_b,
                                dbk,
                                false,
                                v,
                            );
                            let q2 = choose|q2: Seq<u32>|
                                #[trigger] chain_ok(*edge_db, q2, true) && q2.len() == lvl_b[v]
                                    && q2.len() >= 1 && q2[0] == v && q2.last() == dst;
                            lemma_chain_concat(*edge_db, q1, q2);
                            let qs = q1 + q2.skip(1);
                            assert(valid_search_path(*edge_db, src, dst, qs));
                            assert(lvl_b[v] < dbk);
                            assert(qs.len() + 1 < df + dbk);
                            assert(false);
                        }
                    } else {
                        assert(lvl_b0.contains_key(v));
                        assert(lvl_f == lvl_f0);
                    }
                }
            }
        }
        let intersection = NeighborList::intersection(&unvisited_forward, &unvisited_backward);
        let icount = intersection.len();
        let mut ii: usize = 0;
        while ii < icount
            invariant
                edge_db.wf(),
                edge_db.consistent(),
                src != 0,
                dst != 0,
                src != dst,
                unvisited_forward.wf(),
                unvisited_backward.wf(),
                visited_forward.wf(),
                visited_backward.wf(),
                side_inv(*edge_db, visited_forward@, unvisited_forward@, src, lvl_f, df, true),
                side_inv(*edge_db, visited_backward@, unvisited_backward@, dst, lvl_b, dbk, false),
                df >= 1,
                dbk >= 1,
                forall|v: u32| #[trigger] visited_forward@.contains_key(v) ==> !lvl_b.contains_key(
                    v,
                ),
                forall|v: u32| #[trigger] visited_backward@.contains_key(v)
                    ==> !lvl_f.contains_key(v),
                forall|q: Seq<u32>|
                    #[trigger] valid_search_path(*edge_db, src, dst, q) ==> q.len() + 1 >= df
                        + dbk,
                icount == intersection@.len(),
                ii <= icount,
                ii > 0 ==> paths@.len() > 0,
                forall|k: u32| #[trigger] intersection@.contains(k)
                    <==> unvisited_forward@.contains_key(k) && unvisited_backward@.contains_key(k),
                forall|i: int|
                    0 <= i < paths@.len() ==> valid_search_path(
                        *edge_db,
                        src,
                        dst,
                        #[trigger] paths@[i]@,
                    ),
                forall|i: int|
                    0 <= i < paths@.len() ==> (#[trigger] paths@[i]@).len() + 1 == df + dbk,
                forall|i: int, j: int|
                    0 <= i < paths@.len() && 0 <= j < paths@.len() && i != j ==> (
                    #[trigger] paths@[i]@) != (#[trigger] paths@[j]@),
                forall|i: int| 0 <= i < paths@.len() ==> (#[trigger] paths@[i]@).no_duplicates(),
                forall|q: Seq<u32>|
                    #[trigger] valid_search_path(*edge_db, src, dst, q) && q.len() + 1 == df + dbk
                        && (exists|x: int| 0 <= x < ii && #[trigger] intersection@[x] == q[df - 1])
                        ==> exists|i: int| 0 <= i < paths@.len() && (#[trigger] paths@[i]@) == q,
            decreases icount - ii,
        {
            let page_id = intersection[ii];
            let ghost paths_at_m = paths@;
            let ghost mut combo_at: Map<(int, int), int> = Map::empty();
            proof {
                assert(intersection@.contains(page_id)) by {
                    assert(intersection@[ii as int] == page_id);
                }
                assert(lvl_f[page_id] == df);
                assert(lvl_b[page_id] == dbk);
                assert forall|q: Seq<u32>|
                    #[trigger] valid_search_path(*edge_db, src, dst, q) && q.len() + 1 == df + dbk
                        && (exists|x: int|
                        0 <= x < ii && #[trigger] intersection@[x] == q[df - 1]) implies exists|
                    i0: int,
                |
                    0 <= i0 < paths_at_m.len() && (#[trigger] paths_at_m[i0]@) == q by {
                    let i = choose|i: int| 0 <= i < paths@.len() && (#[trigger] paths@[i]@) == q;
                    assert(paths_at_m[i]@ == q);
                }
            }
            let fids = unvisited_forward.neighbors(page_id);
            proof {
                assert(fids@ == unvisited_forward@[page_id]);
                assert(fids@.len() > 0);
                assert forall|j: int| 0 <= j < fids@.len() implies render_id_ok(
                    visited_forward@,
                    lvl_f,
                    df,
                    #[trigger] fids@[j],
                ) by {
                    assert(parent_ok(
                        *edge_db,
                        visited_forward@,
                        src,
                        lvl_f,
                        true,
                        page_id,
                        unvisited_forward@[page_id][j],
                    ));
                }
            }
            let paths_from_source = render_paths(
                &fids,
                &visited_forward,
                Ghost(*edge_db),
                Ghost(src),
                Ghost(lvl_f),
                Ghost(true),
                Ghost(df),
            );
            let bids = unvisited_backward.neighbors(page_id);
            proof {
                assert(bids@ == unvisited_backward@[page_id]);
                assert(bids@.len() > 0);
                assert forall|j: int| 0 <= j < bids@.len() implies render_id_ok(
                    visited_backward@,
                    lvl_b,
                    dbk,
                    #[trigger] bids@[j],
                ) by {
                    assert(parent_ok(
                        *edge_db,
                        visited_backward@,
                        dst,
                        lvl_b,
                        false,
                        page_id,
                        unvisited_backward@[page_id][j],
                    ));
                }
            }
            let paths_from_target = render_paths(
                &bids,
                &visited_backward,
                Ghost(*edge_db),
                Ghost(dst),
                Ghost(lvl_b),
                Ghost(false),
                Ghost(dbk),
            );
            let fcount = paths_from_source.len();
            let tcount = paths_from_target.len();
            let mut pi: usize = 0;
            while pi < fcount
                invariant
                    edge_db.wf(),
                    edge_db.consistent(),
                    src != 0,
                    dst != 0,
                    src != dst,
                    df >= 1,
                    dbk >= 1,
                    unvisited_forward@.contains_key(page_id),
                    unvisited_backward@.contains_key(page_id),
                    !visited_forward@.contains_key(page_id),
                    !visited_backward@.contains_key(page_id),
                    lvl_f.contains_key(page_id),
                    lvl_b.contains_key(page_id),
                    lvl_f[page_id] == df,
                    lvl_b[page_id] == dbk,
                    forall|v: u32| #[trigger] visited_forward@.contains_key(v)
                        ==> !lvl_b.contains_key(v),
                    forall|v: u32| #[trigger] visited_backward@.contains_key(v)
                        ==> !lvl_f.contains_key(v),
                    forall|v: u32| #[trigger] visited_backward@.contains_key(v)
                        ==> lvl_b.contains_key(v),
                    forall|v: u32| #[trigger] lvl_f.contains_key(v) && lvl_f[v] == 1 ==> v == src,
                    forall|v: u32| #[trigger] lvl_b.contains_key(v) && lvl_b[v] == 1 ==> v == dst,
                    paths_at_m.len() <= paths@.len(),
                    forall|z: int|
                        0 <= z < paths_at_m.len() ==> #[trigger] paths@[z] == paths_at_m[z],
                    fids@ == unvisited_forward@[page_id],
                    bids@ == unvisited_backward@[page_id],
                    forall|j: int|
                        0 <= j < fids@.len() ==> parent_ok(
                            *edge_db,
                            visited_forward@,
                            src,
                            lvl_f,
                            true,
                            page_id,
                            #[trigger] fids@[j],
                        ),
                    forall|j: int|
                        0 <= j < bids@.len() ==> parent_ok(
                            *edge_db,
                            visited_backward@,
                            dst,
                            lvl_b,
                            false,
                            page_id,
                            #[trigger] bids@[j],
                        ),
                    fcount == paths_from_source@.len(),
                    tcount == paths_from_target@.len(),
                    fcount > 0,
                    tcount > 0,
                    pi <= fcount,
                    forall|x: int|
                        0 <= x < paths_from_source@.len() ==> render_path_ok(
                            *edge_db,
                            visited_forward@,
                            lvl_f,
                            src,
                            true,
                            df,
                            fids@,
                            #[trigger] paths_from_source@[x]@,
                        ),
                    forall|x: int|
                        0 <= x < paths_from_target@.len() ==> render_path_ok(
                            *edge_db,
                            visited_backward@,
                            lvl_b,
                            dst,
                            false,
                            dbk,
                            bids@,
                            #[trigger] paths_from_target@[x]@,
                        ),
                    forall|i: int|
                        0 <= i < paths@.len() ==> valid_search_path(
                            *edge_db,
                            src,
                            dst,
                            #[trigger] paths@[i]@,
                        ),
                    forall|i: int|
                        0 <= i < paths@.len() ==> (#[trigger] paths@[i]@).len() + 1 == df + dbk,
                    forall|i: int, j: int|
                        0 <= i < paths@.len() && 0 <= j < paths@.len() && i != j ==> (
                        #[trigger] paths@[i]@) != (#[trigger] paths@[j]@),
                    forall|i: int|
                        0 <= i < paths@.len() ==> (#[trigger] paths@[i]@).no_duplicates(),
                    pi > 0 ==> paths@.len() > 0,
                    forall|x: int, y: int|
                        #![trigger combo_at[(x, y)]]
                        0 <= x < pi && 0 <= y < tcount ==> 0 <= combo_at[(x, y)] < paths@.len()
                            && paths@[combo_at[(x, y)]]@ == paths_from_source@[x]@ + seq![page_id]
                            + paths_from_target@[y]@.reverse(),
                decreases fcount - pi,
            {
                let path_from_source = &paths_from_source[pi];
                let mut ti: usize = 0;
                while ti < tcount
                    invariant
                        edge_db.wf(),
                        edge_db.consistent(),
                        src != 0,
                        dst != 0,
                        src != dst,
                        df >= 1,
                        dbk >= 1,
                        unvisited_forward@.contains_key(page_id),
                        unvisited_backward@.contains_key(page_id),
                        !visited_forward@.contains_key(page_id),
                        !visited_backward@.contains_key(page_id),
                        lvl_f.contains_key(page_id),
                        lvl_b.contains_key(page_id),
                        lvl_f[page_id] == df,
                        lvl_b[page_id] == dbk,
                        forall|v: u32| #[trigger] visited_forward@.contains_key(v)
                            ==> !lvl_b.contains_key(v),
                        forall|v: u32| #[trigger] visited_backward@.contains_key(v)
                            ==> lvl_b.contains_key(v),
                        forall|v: u32| #[trigger] lvl_f.contains_key(v) && lvl_f[v] == 1 ==> v
                            == src,
                        forall|v: u32| #[trigger] lvl_b.contains_key(v) && lvl_b[v] == 1 ==> v
                            == dst,
                        paths_at_m.len() <= paths@.len(),
                        forall|z: int|
                            0 <= z < paths_at_m.len() ==> #[trigger] paths@[z] == paths_at_m[z],
                        fids@ == unvisited_forward@[page_id],
                        bids@ == unvisited_backward@[page_id],
                        forall|j: int|
                            0 <= j < fids@.len() ==> parent_ok(
                                *edge_db,
                                visited_forward@,
                                src,
                                lvl_f,
                                true,
                                page_id,
                                #[trigger] fids@[j],
                            ),
                        forall|j: int|
                            0 <= j < bids@.len() ==> parent_ok(
                                *edge_db,
                                visited_backward@,
                                dst,
                                lvl_b,
                                false,
                                page_id,
                                #[trigger] bids@[j],
                            ),
                        fcount == paths_from_source@.len(),
                        tcount == paths_from_target@.len(),
                        pi < fcount,
                        ti <= tcount,
                        path_from_source@ == paths_from_source@[pi as int]@,
                        render_path_ok(
                            *edge_db,
                            visited_forward@,
                            lvl_f,
                            src,
                            true,
                            df,
                            fids@,
                            path_from_source@,
                        ),
                        forall|x: int|
                            0 <= x < paths_from_target@.len() ==> render_path_ok(
                                *edge_db,
                                visited_backward@,
                                lvl_b,
                                dst,
                                false,
                                dbk,
                                bids@,
                                #[trigger] paths_from_target@[x]@,
                            ),
                        forall|i: int|
                            0 <= i < paths@.len() ==> valid_search_path(
                                *edge_db,
                                src,
                                dst,
                                #[trigger] paths@[i]@,
                            ),
                        forall|i: int|
                            0 <= i < paths@.len() ==> (#[trigger] paths@[i]@).len() + 1 == df
                                + dbk,
                        forall|i: int, j: int|
                            0 <= i < paths@.len() && 0 <= j < paths@.len() && i != j ==> (
                            #[trigger] paths@[i]@) != (#[trigger] paths@[j]@),
                        forall|i: int|
                            0 <= i < paths@.len() ==> (#[trigger] paths@[i]@).no_duplicates(),
                        forall|x: int, y: int|
                            #![trigger combo_at[(x, y)]]
                            ((0 <= x < pi && 0 <= y < tcount) || (x == pi && 0 <= y < ti)) ==> 0
                                <= combo_at[(x, y)] < paths@.len() && paths@[combo_at[(x, y)]]@
                                == paths_from_source@[x]@ + seq![page_id]
                                + paths_from_target@[y]@.reverse(),
                        ti > 0 ==> paths@.len() > 0,
                    decreases tcount - ti,
                {
                    let path_from_target = &paths_from_target[ti];
                    let current_path = assemble_path(path_from_source, page_id, path_from_target);
                    proof {
                        let q = current_path@;
                        let pf = path_from_source@;
                        let pt = path_from_target@;
                        let flen = pf.len() as int;
                        let blen = pt.len() as int;
                        assert(render_path_ok(
                            *edge_db,
                            visited_backward@,
                            lvl_b,
                            dst,
                            false,
                            dbk,
                            bids@,
                            pt,
                        ));
                        assert(q.len() + 1 == df + dbk);
                        assert(q[0] == src) by {
                            if flen > 0 {
                                assert(q[0] == pf[0]);
                            } else {
                                assert(df == 1);
                                assert(q[0] == page_id);
                                assert(lvl_f.contains_key(page_id) && lvl_f[page_id] == 1);
                                assert(page_id == src);
                            }
                        }
                        assert(q.last() == dst) by {
                            if blen > 0 {
                                assert(q[flen + 1 + (blen - 1)] == pt[0]);
                                assert(pt[0] == dst);
                            } else {
                                assert(dbk == 1);
                                assert(q.last() == page_id);
                                assert(lvl_b.contains_key(page_id) && lvl_b[page_id] == 1);
                                assert(page_id == dst);
                            }
                        }
                        assert forall|x: int| 0 <= x < q.len() - 1 implies #[trigger] step_ok(
                            *edge_db,
                            q[x],
                            q[x + 1],
                            true,
                        ) by {
                            if x < flen - 1 {
                                assert(q[x] == pf[x]);
                                assert(q[x + 1] == pf[x + 1]);
                                assert(step_ok(*edge_db, pf[x], pf[x + 1], true));
                            } else if x == flen - 1 {
                                assert(q[x] == pf[flen - 1]);
                                assert(q[x + 1] == page_id);
                                assert(fids@.contains(pf.last()));
                                let jj = choose|jj: int|
                                    0 <= jj < fids@.len() && fids@[jj] == pf.last();
                                assert(parent_ok(
                                    *edge_db,
                                    visited_forward@,
                                    src,
                                    lvl_f,
                                    true,
                                    page_id,
                                    fids@[jj],
                                ));
                                assert(step_ok(*edge_db, pf.last(), page_id, true));
                            } else if x == flen {
                                assert(q[x] == page_id);
                                assert(q[flen + 1 + 0] == pt[blen - 1 - 0]);
                                assert(q[x + 1] == pt[blen - 1]);
                                assert(bids@.contains(pt.last()));
                                let jj = choose|jj: int|
                                    0 <= jj < bids@.len() && bids@[jj] == pt.last();
                                assert(parent_ok(
                                    *edge_db,
                                    visited_backward@,
                                    dst,
                                    lvl_b,
                                    false,
                                    page_id,
                                    bids@[jj],
                                ));
                                assert(step_ok(*edge_db, pt.last(), page_id, false));
                                assert(step_ok(*edge_db, page_id, pt[blen - 1], true));
                            } else {
                                let a = blen - 1 - (x - flen - 1);
                                let i1 = x - flen - 1;
                                let i2 = i1 + 1;
                                assert(q[flen + 1 + i1] == pt[blen - 1 - i1]);
                                assert(q[flen + 1 + i2] == pt[blen - 1 - i2]);
                                assert(q[x] == pt[a]);
                                assert(q[x + 1] == pt[a - 1]);
                                assert(step_ok(*edge_db, pt[a - 1], pt[a - 1 + 1], false));
                                assert(step_ok(*edge_db, pt[a], pt[a - 1], true));
                            }
                        }
                        assert(valid_search_path(*edge_db, src, dst, q));
                        lemma_meet_path_simple(
                            visited_forward@,
                            lvl_f,
                            visited_backward@,
                            lvl_b,
                            page_id,
                            pf,
                            pt,
                            q,
                        );
                        assert(q =~= pf + seq![page_id] + pt.reverse()) by {
                            assert forall|x: int| 0 <= x < blen implies pt.reverse()[x] == q[flen
                                + 1 + x] by {
                                assert(q[flen + 1 + x] == pt[blen - 1 - x]);
                            }
                        }
                    }
                    let ghost pre_paths = paths@;
                    if !contains_path(&paths, &current_path) {
                        paths.push(current_path);
                        proof {
                            assert forall|i: int, j: int|
                                0 <= i < paths@.len() && 0 <= j < paths@.len() && i
                                    != j implies (#[trigger] paths@[i]@) != (
                            #[trigger] paths@[j]@) by {
                                if i < pre_paths.len() && j < pre_paths.len() {
                                    assert(paths@[i]@ == pre_paths[i]@);
                                    assert(paths@[j]@ == pre_paths[j]@);
                                } else if i == pre_paths.len() {
                                    assert(paths@[j]@ == pre_paths[j]@);
                                } else {
                                    assert(paths@[i]@ == pre_paths[i]@);
                                }
                            }
                        }
                    }
                    proof {
                        assert forall|z: int| 0 <= z < paths_at_m.len() implies #[trigger] paths@[
                        z] == paths_at_m[z] by {
                            assert(paths@[z] == pre_paths[z]);
                        }
                        let znew: int = if pre_paths.len() < paths@.len() {
                            paths@.len() - 1
                        } else {
                            choose|z: int|
                                0 <= z < pre_paths.len() && (#[trigger] pre_paths[z]@)
                                    == current_path@
                        };
                        assert(0 <= znew < paths@.len() && paths@[znew]@ == current_path@) by {
                            if pre_paths.len() < paths@.len() {
                                assert(paths@[paths@.len() - 1]@ == current_path@);
                            } else {
                                assert(paths@[znew]@ == pre_paths[znew]@);
                            }
                        }
                        let old_combo = combo_at;
                        combo_at = combo_at.insert((pi as int, ti as int), znew);
                        assert forall|x: int, y: int|
                            #![trigger combo_at[(x, y)]]
                            ((0 <= x < pi && 0 <= y < tcount) || (x == pi && 0 <= y < ti
                                + 1)) implies 0 <= combo_at[(x, y)] < paths@.len() && paths@[
                        combo_at[(x, y)]]@ == paths_from_source@[x]@ + seq![page_id]
                            + paths_from_target@[y]@.reverse() by {
                            if x == pi && y == ti {
                                assert(combo_at[(x, y)] == znew);
                                assert(current_path@ == paths_from_source@[pi as int]@ + seq![
                                    page_id,
                                ] + paths_from_target@[ti as int]@.reverse());
                            } else {
                                assert(combo_at[(x, y)] == old_combo[(x, y)]);
                                assert(paths@[old_combo[(x, y)]] == pre_paths[old_combo[(x, y)]]);
                            }
                        }
                    }
                    ti += 1;
                }
                pi += 1;
            }
            proof {
                // every shortest path through this meeting vertex is present
                assert forall|q: Seq<u32>|
                    #[trigger] valid_search_path(*edge_db, src, dst, q) && q.len() + 1 == df + dbk
                        && q[df - 1] == page_id implies exists|i: int|
                    0 <= i < paths@.len() && (#[trigger] paths@[i]@) == q by {
                    lemma_split_minimal(
                        *edge_db,
                        src,
                        dst,
                        visited_forward@,
                        unvisited_forward@,
                        lvl_f,
                        df,
                        visited_backward@,
                        unvisited_backward@,
                        lvl_b,
                        dbk,
                        q,
                    );
                    let pf = q.take(df - 1);
                    let pb = q.skip(df as int).reverse();
                    let x = if pf.len() == 0 {
                        0int
                    } else {
                        choose|x: int|
                            0 <= x < paths_from_source@.len() && (#[trigger] paths_from_source@[
                            x]@) == pf
                    };
                    assert(0 <= x < paths_from_source@.len() && paths_from_source@[x]@ == pf) by {
                        if pf.len() == 0 {
                            assert(df == 1);
                            assert(paths_from_source@[0]@ == Seq::<u32>::empty());
                            assert(pf =~= Seq::<u32>::empty());
                        } else {
                            assert(fids@.contains(pf.last()) && anchored_chain(
                                visited_forward@,
                                pf,
                            )) by {
                                assert(unvisited_forward@[page_id].contains(pf.last()));
                            }
                        }
                    }
                    let y = if pb.len() == 0 {
                        0int
                    } else {
                        choose|y: int|
                            0 <= y < paths_from_target@.len() && (#[trigger] paths_from_target@[
                            y]@) == pb
                    };
                    assert(0 <= y < paths_from_target@.len() && paths_from_target@[y]@ == pb) by {
                        if pb.len() == 0 {
                            assert(dbk == 1);
                            assert(paths_from_target@[0]@ == Seq::<u32>::empty());
                            assert(pb =~= Seq::<u32>::empty());
                        } else {
                            assert(bids@.contains(pb.last()) && anchored_chain(
                                visited_backward@,
                                pb,
                            )) by {
                                assert(unvisited_backward@[page_id].contains(pb.last()));
                            }
                        }
                    }
                    let z = combo_at[(x, y)];
                    assert(0 <= z < paths@.len() && paths@[z]@ == paths_from_source@[x]@ + seq![
                        page_id,
                    ] + paths_from_target@[y]@.reverse());
                    assert(paths@[z]@ == pf + seq![page_id] + pb.reverse());
                    assert(q == pf + seq![page_id] + pb.reverse());
                }
                assert forall|q: Seq<u32>|
                    #[trigger] valid_search_path(*edge_db, src, dst, q) && q.len() + 1 == df + dbk
                        && (exists|x: int|
                        0 <= x < ii + 1 && #[trigger] intersection@[x] == q[df - 1]) implies exists|
                    i: int,
                |
                    0 <= i < paths@.len() && (#[trigger] paths@[i]@) == q by {
                    let x = choose|x: int|
                        0 <= x < ii + 1 && #[trigger] intersection@[x] == q[df - 1];
                    if x < ii {
                        assert(exists|x2: int|
                            0 <= x2 < ii && #[trigger] intersection@[x2] == q[df - 1]);
                        let i0 = choose|i0: int|
                            0 <= i0 < paths_at_m.len() && (#[trigger] paths_at_m[i0]@) == q;
                        assert(paths@[i0] == paths_at_m[i0]);
                    } else {
                        assert(q[df - 1] == page_id);
                    }
                }
            }
            ii += 1;
        }
        proof {
            if paths@.len() == 0 {
                assert forall|v: u32| #[trigger] lvl_f.contains_key(v) implies !lvl_b.contains_key(
                    v,
                ) by {
                    if lvl_b.contains_key(v) {
                        if visited_forward@.contains_key(v) {
                        } else {
                            assert(unvisited_forward@.contains_key(v));
                            if visited_backward@.contains_key(v) {
                            } else {
                                assert(unvisited_backward@.contains_key(v));
                                assert(intersection@.contains(v));
                                let x = choose|x: int|
                                    0 <= x < intersection@.len() && intersection@[x] == v;
                                assert(icount > 0);
                                assert(false);
                            }
                        }
                    }
                }
            } else {
                assert forall|q: Seq<u32>|
                    #[trigger] valid_search_path(*edge_db, src, dst, q) && q.len() + 1 == df
                        + dbk implies exists|i: int|
                    0 <= i < paths@.len() && (#[trigger] paths@[i]@) == q by {
                    lemma_split_minimal(
                        *edge_db,
                        src,
                        dst,
                        visited_forward@,
                        unvisited_forward@,
                        lvl_f,
                        df,
                        visited_backward@,
                        unvisited_backward@,
                        lvl_b,
                        dbk,
                        q,
                    );
                    let w = q[df - 1];
                    assert(intersection@.contains(w));
                    let x = choose|x: int| 0 <= x < intersection@.len() && intersection@[x] == w;
                    assert(exists|x2: int|
                        0 <= x2 < icount && #[trigger] intersection@[x2] == q[df - 1]);
                }
            }
        }
    }
    proof {
        if paths@.len() > 0 {
            assert(exists|q: Seq<u32>| #[trigger] valid_search_path(*edge_db, src, dst, q)) by {
                assert(valid_search_path(*edge_db, src, dst, paths@[0]@));
            }
        } else {
            assert forall|q: Seq<u32>|
                !(#[trigger] valid_search_path(*edge_db, src, dst, q)) by {
                if valid_search_path(*edge_db, src, dst, q) {
                    if unvisited_forward@.dom() == Set::<u32>::empty() {
                        assert(dir_chain(*edge_db, q, true)) by {
                            assert forall|i: int|
                                0 <= i < q.len() - 1 implies #[trigger] spec_neighbor(
                                *edge_db,
                                q[i],
                                q[i + 1],
                                true,
                            ) by {
                                assert(step_ok(*edge_db, q[i], q[i + 1], true));
                            }
                        }
                        lemma_confine_closed(
                            *edge_db,
                            visited_forward@,
                            unvisited_forward@,
                            src,
                            lvl_f,
                            df,
                            true,
                            q,
                        );
                        assert(lvl_f.contains_key(dst));
                        assert(lvl_b.contains_key(dst));
                        assert(false);
                    } else {
                        assert(unvisited_backward@.dom() == Set::<u32>::empty()) by {
                            if unvisited_backward@.dom() != Set::<u32>::empty() {
                                assert(unvisited_forward@.dom() != Set::<u32>::empty());
                            }
                        }
                        let qr = q.reverse();
                        assert(qr[0] == dst) by {
                            assert(qr[0] == q[q.len() - 1]);
                        }
                        assert(dir_chain(*edge_db, qr, false)) by {
                            assert forall|i: int|
                                0 <= i < qr.len() - 1 implies #[trigger] spec_neighbor(
                                *edge_db,
                                qr[i],
                                qr[i + 1],
                                false,
                            ) by {
                                let a = q.len() - 1 - i;
                                assert(qr[i] == q[a]);
                                assert(qr[i + 1] == q[a - 1]);
                                assert(step_ok(*edge_db, q[a - 1], q[a - 1 + 1], true));
                                assert(edge_db.spec_outgoing(q[a - 1] as int).contains(q[a]));
                                assert(edge_db.spec_incoming(q[a] as int).contains(q[a - 1]));
                            }
                        }
                        lemma_confine_closed(
                            *edge_db,
                            visited_backward@,
                            unvisited_backward@,
                            dst,
                            lvl_b,
                            dbk,
                            false,
                            qr,
                        );
                        assert(qr.last() == q[0]);
                        assert(lvl_b.contains_key(src));
                        assert(lvl_f.contains_key(src));
                        assert(false);
                    }
                }
            }
        }
    }
    paths
}

} // verus!
