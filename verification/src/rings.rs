//! The circular doubly linked lists on which the ear-clipping triangulator
//! works: one ring per contour, vertices clipped off as ears, holes joined
//! to outer contours by key-holes.
//!
//! Vertices are stored in one flat vector and refer to their neighbours by
//! index. A clipped vertex keeps its links to its former neighbours, but they
//! no longer link back to it.
use vstd::prelude::*;
use crate::triangulate::PolyVert;

verus! {

/// A vertex of the rings: the mesh index it stands for and the indices of its
/// left and right neighbours.
#[derive(Clone, Copy)]
pub struct RingVert {
    /// The mesh index this vertex belongs to
    pub mesh_idx: i32,
    /// Index of the left neighbor vertex
    pub left: usize,
    /// Index of the right neighbor vertex
    pub right: usize,
}

/// Position after `i` in a ring of length `m`.
pub open spec fn ring_next(i: int, m: int) -> int {
    if i + 1 >= m {
        0
    } else {
        i + 1
    }
}

/// Position before `i` in a ring of length `m`.
pub open spec fn ring_prev(i: int, m: int) -> int {
    if i <= 0 {
        m - 1
    } else {
        i - 1
    }
}

/// Total number of vertices of the given polygons.
pub open spec fn total_verts<P>(polys: Seq<Vec<PolyVert<P>>>) -> int
    decreases polys.len(),
{
    if polys.len() == 0 {
        0
    } else {
        total_verts(polys.drop_last()) + polys.last().len()
    }
}

/// Index of the first vertex of polygon `k` in the flat vertex vector.
pub open spec fn poly_offset<P>(polys: Seq<Vec<PolyVert<P>>>, k: int) -> int {
    total_verts(polys.take(k))
}

/// The ring of the `m` consecutive vertices that start at `s`.
pub open spec fn span_ring(s: int, m: int) -> Seq<int> {
    Seq::new(m as nat, |j: int| s + j)
}

/// The ring `ring` read from position `i` on, wrapping around.
pub open spec fn rotate(ring: Seq<int>, i: int) -> Seq<int> {
    ring.subrange(i, ring.len() as int) + ring.subrange(0, i)
}

/// The vertices `verts` with the right link of `v` set to `x`.
pub open spec fn set_right(verts: Seq<RingVert>, v: int, x: usize) -> Seq<RingVert> {
    verts.update(v, RingVert { right: x, ..verts[v] })
}

/// The vertices `verts` with the left link of `v` set to `x`.
pub open spec fn set_left(verts: Seq<RingVert>, v: int, x: usize) -> Seq<RingVert> {
    verts.update(v, RingVert { left: x, ..verts[v] })
}

/// Linking `l` to `r`: `r` becomes the right neighbour of `l`, and `l` the
/// left neighbour of `r`.
pub open spec fn linked(verts: Seq<RingVert>, l: int, r: int) -> Seq<RingVert> {
    set_left(set_right(verts, l, r as usize), r, l as usize)
}

/// The offset of the next polygon is that of this one plus its length.
proof fn lemma_offset_step<P>(polys: Seq<Vec<PolyVert<P>>>, k: int)
    requires
        0 <= k < polys.len(),
    ensures
        poly_offset(polys, k + 1) == poly_offset(polys, k) + polys[k].len(),
{
    assert(polys.take(k + 1).drop_last() =~= polys.take(k));
    assert(polys.take(k + 1).last() == polys[k]);
}

/// The vertices of the first polygons are no more than all vertices.
proof fn lemma_total_prefix<P>(polys: Seq<Vec<PolyVert<P>>>, k: int)
    requires
        0 <= k <= polys.len(),
    ensures
        0 <= poly_offset(polys, k) <= total_verts(polys),
    decreases polys.len(),
{
    if polys.len() == 0 {
        assert(polys.take(k) =~= polys);
    } else if k == polys.len() {
        assert(polys.take(k) =~= polys);
        lemma_total_prefix(polys.drop_last(), k - 1);
    } else {
        lemma_total_prefix(polys.drop_last(), k);
        assert(polys.drop_last().take(k) =~= polys.take(k));
    }
}

/// Locations after the vertex `ear` at position `p` of ring `rid` has left it:
/// the later vertices of that ring move one position down.
pub open spec fn loc_after_clip(loc: Map<int, (int, int)>, ear: int, rid: int, p: int) -> Map<
    int,
    (int, int),
> {
    Map::new(
        |v: int| loc.dom().contains(v) && v != ear,
        |v: int|
            if loc[v].0 == rid && loc[v].1 > p {
                (rid, loc[v].1 - 1)
            } else {
                loc[v]
            },
    )
}

/// Position `k` steps after `i` in a ring of length `m`.
pub open spec fn rot_index(i: int, k: int, m: int) -> int {
    if i + k < m {
        i + k
    } else {
        i + k - m
    }
}

/// How many steps position `q` lies after `i` in a ring of length `m`.
pub open spec fn unrot_index(i: int, q: int, m: int) -> int {
    if q >= i {
        q - i
    } else {
        q - i + m
    }
}

/// The vertices after a key-hole joins the ring through `start` to the ring
/// through `connector`: both are duplicated at the end (`start` first), the
/// old right neighbour of `start` gets the duplicate of `start` as left
/// neighbour, the old left neighbour of `connector` gets the duplicate of
/// `connector` as right neighbour, then `start` is linked to `connector` and
/// the duplicate of `connector` to the duplicate of `start`.
pub open spec fn joined_nodes(nodes: Seq<RingVert>, start: int, connector: int) -> Seq<RingVert> {
    let n = nodes.len() as int;
    let s0 = nodes.push(nodes[start]).push(nodes[connector]);
    let s1 = set_left(s0, nodes[start].right as int, n as usize);
    let s2 = set_right(s1, nodes[connector].left as int, (n + 1) as usize);
    let s3 = linked(s2, start, connector);
    linked(s3, n + 1, n)
}

/// The ring that a key-hole makes of a hole ring, entered at position `hs`,
/// and an outer ring, entered at position `co`, when the duplicates are `n`
/// (of the hole vertex) and `n + 1` (of the outer vertex): the outer ring from
/// the connector on, the two duplicates, then the hole ring from the vertex
/// after the start on, ending at the start.
pub open spec fn joined_ring(hole: Seq<int>, hs: int, outer: Seq<int>, co: int, n: int) -> Seq<
    int,
> {
    rotate(outer, co) + seq![n + 1, n] + rotate(hole, ring_next(hs, hole.len() as int))
}

/// Locations after a key-hole has merged ring `hr` (entered at `hs`) into
/// ring `or` (entered at `co`), with duplicates `n` and `n + 1`.
pub open spec fn loc_after_join(
    loc: Map<int, (int, int)>,
    n: int,
    hr: int,
    hs: int,
    mh: int,
    or: int,
    co: int,
    mo: int,
) -> Map<int, (int, int)> {
    Map::new(
        |v: int| loc.dom().contains(v) || v == n || v == n + 1,
        |v: int|
            if v == n + 1 {
                (or, mo)
            } else if v == n {
                (or, mo + 1)
            } else if loc[v].0 == or {
                (or, unrot_index(co, loc[v].1, mo))
            } else if loc[v].0 == hr {
                (or, mo + 2 + unrot_index(ring_next(hs, mh), loc[v].1, mh))
            } else {
                loc[v]
            },
    )
}

/// Element `t` of a joined ring.
proof fn lemma_joined_ring_index(hole: Seq<int>, hs: int, outer: Seq<int>, co: int, n: int, t: int)
    requires
        0 <= hs < hole.len(),
        0 <= co < outer.len(),
        0 <= t < outer.len() + hole.len() + 2,
    ensures
        joined_ring(hole, hs, outer, co, n).len() == outer.len() + hole.len() + 2,
        joined_ring(hole, hs, outer, co, n)[t] == if t < outer.len() {
            outer[rot_index(co, t, outer.len() as int)]
        } else if t == outer.len() {
            n + 1
        } else if t == outer.len() + 1 {
            n
        } else {
            hole[rot_index(
                ring_next(hs, hole.len() as int),
                t - outer.len() - 2,
                hole.len() as int,
            )]
        },
{
    let mo = outer.len() as int;
    let mh = hole.len() as int;
    let ro = rotate(outer, co);
    let rh = rotate(hole, ring_next(hs, mh));
    assert(ro.len() == mo);
    assert(rh.len() == mh);
    let j = joined_ring(hole, hs, outer, co, n);
    assert(j == ro + seq![n + 1, n] + rh);
    if t < mo {
        assert(j[t] == ro[t]);
    } else if t < mo + 2 {
        assert(j[t] == seq![n + 1, n][t - mo]);
    } else {
        assert(j[t] == rh[t - mo - 2]);
    }
}

/// A key-hole turns the two rings into one that holds every vertex of both
/// and the two duplicates, so its length is the sum of theirs plus two.
pub proof fn lemma_join_keeps_vertices(hole: Seq<int>, hs: int, outer: Seq<int>, co: int, n: int)
    requires
        0 <= hs < hole.len(),
        0 <= co < outer.len(),
    ensures
        joined_ring(hole, hs, outer, co, n).len() == hole.len() + outer.len() + 2,
        joined_ring(hole, hs, outer, co, n).contains(n),
        joined_ring(hole, hs, outer, co, n).contains(n + 1),
        forall|t: int|
            0 <= t < outer.len() ==> joined_ring(hole, hs, outer, co, n).contains(
                #[trigger] outer[t],
            ),
        forall|t: int|
            0 <= t < hole.len() ==> joined_ring(hole, hs, outer, co, n).contains(
                #[trigger] hole[t],
            ),
{
    let mo = outer.len() as int;
    let mh = hole.len() as int;
    let hn = ring_next(hs, mh);
    let j = joined_ring(hole, hs, outer, co, n);
    lemma_joined_ring_index(hole, hs, outer, co, n, mo);
    lemma_joined_ring_index(hole, hs, outer, co, n, mo + 1);
    assert(j[mo] == n + 1);
    assert(j[mo + 1] == n);
    assert forall|t: int| 0 <= t < mo implies j.contains(#[trigger] outer[t]) by {
        lemma_joined_ring_index(hole, hs, outer, co, n, unrot_index(co, t, mo));
        assert(j[unrot_index(co, t, mo)] == outer[t]);
    }
    assert forall|t: int| 0 <= t < mh implies j.contains(#[trigger] hole[t]) by {
        lemma_joined_ring_index(hole, hs, outer, co, n, mo + 2 + unrot_index(hn, t, mh));
        assert(j[mo + 2 + unrot_index(hn, t, mh)] == hole[t]);
    }
}

/// The sum of `f` over `0..k`.
pub open spec fn count_upto(f: spec_fn(int) -> int, k: int) -> int
    decreases k,
{
    if k <= 0 {
        0
    } else {
        count_upto(f, k - 1) + f(k - 1)
    }
}

/// 1 where the directed edge `e` goes from mesh index `a` to mesh index `b`.
pub open spec fn edge_is(e: (i32, i32), a: i32, b: i32) -> int {
    if e == (a, b) {
        1
    } else {
        0
    }
}

/// How many of the directed edges of the triangles `tris` (three per
/// triangle, in its winding order) go from mesh index `a` to `b`.
pub open spec fn triangle_edge_count(tris: Seq<[i32; 3]>, a: i32, b: i32) -> int
    decreases tris.len(),
{
    if tris.len() == 0 {
        0
    } else {
        let t = tris.last();
        triangle_edge_count(tris.drop_last(), a, b) + edge_is((t[0], t[1]), a, b) + edge_is(
            (t[1], t[2]),
            a,
            b,
        ) + edge_is((t[2], t[0]), a, b)
    }
}

/// The triangles an optional triangle stands for: none, or that one.
pub open spec fn triangles_of(tri: Option<[i32; 3]>) -> Seq<[i32; 3]> {
    match tri {
        Some(t) => seq![t],
        None => Seq::empty(),
    }
}

/// 1 where vertex `v` of the vertices `verts` and its right neighbour make a
/// directed edge from mesh index `a` to `b`.
pub open spec fn input_edge_at(verts: Seq<RingVert>, v: int, a: i32, b: i32) -> int {
    edge_is((verts[v].mesh_idx, verts[verts[v].right as int].mesh_idx), a, b)
}

/// Sums of two functions that agree on `0..k` are equal.
proof fn lemma_count_agree(f: spec_fn(int) -> int, g: spec_fn(int) -> int, k: int)
    requires
        forall|x: int| 0 <= x < k ==> #[trigger] f(x) == g(x),
    ensures
        count_upto(f, k) == count_upto(g, k),
    decreases k,
{
    if k > 0 {
        lemma_count_agree(f, g, k - 1);
    }
}

/// Changing a function at one point of `0..k` changes its sum by the
/// difference there.
proof fn lemma_count_one_change(f: spec_fn(int) -> int, g: spec_fn(int) -> int, k: int, p: int)
    requires
        0 <= p < k,
        forall|x: int| 0 <= x < k && x != p ==> #[trigger] f(x) == g(x),
    ensures
        count_upto(g, k) == count_upto(f, k) - f(p) + g(p),
    decreases k,
{
    if p == k - 1 {
        lemma_count_agree(f, g, k - 1);
    } else {
        lemma_count_one_change(f, g, k - 1, p);
    }
}

/// Changing a function at two points of `0..k` changes its sum by the
/// differences there.
proof fn lemma_count_two_changes(
    f: spec_fn(int) -> int,
    g: spec_fn(int) -> int,
    k: int,
    p: int,
    q: int,
)
    requires
        0 <= p < k,
        0 <= q < k,
        p != q,
        forall|x: int| 0 <= x < k && x != p && x != q ==> #[trigger] f(x) == g(x),
    ensures
        count_upto(g, k) == count_upto(f, k) - f(p) + g(p) - f(q) + g(q),
{
    let h = |x: int|
        if x == p {
            g(p)
        } else {
            f(x)
        };
    lemma_count_one_change(f, h, k, p);
    lemma_count_one_change(h, g, k, q);
}

/// Reading a function through an involution of `0..k` keeps its sum.
proof fn lemma_count_involution(
    f: spec_fn(int) -> int,
    g: spec_fn(int) -> int,
    k: int,
    sigma: spec_fn(int) -> int,
)
    requires
        forall|x: int|
            0 <= x < k ==> 0 <= #[trigger] sigma(x) < k && sigma(sigma(x)) == x && g(x) == f(
                sigma(x),
            ),
    ensures
        count_upto(f, k) == count_upto(g, k),
    decreases k,
{
    if k > 0 {
        let x = k - 1;
        let y = sigma(x);
        if y == x {
            assert forall|z: int| 0 <= z < k - 1 implies 0 <= #[trigger] sigma(z) < k - 1 && sigma(
                sigma(z),
            ) == z && g(z) == f(sigma(z)) by {
                assert(sigma(z) != x);
            }
            lemma_count_involution(f, g, k - 1, sigma);
        } else {
            let sigma2 = |z: int|
                if z == y {
                    y
                } else {
                    sigma(z)
                };
            let g2 = |z: int|
                if z == y {
                    f(y)
                } else {
                    g(z)
                };
            assert(sigma(y) == x);
            assert forall|z: int| 0 <= z < k - 1 implies 0 <= #[trigger] sigma2(z) < k - 1
                && sigma2(sigma2(z)) == z && g2(z) == f(sigma2(z)) by {
                if z != y {
                    assert(sigma(z) != x);
                    assert(sigma(z) != y);
                }
            }
            lemma_count_involution(f, g2, k - 1, sigma2);
            lemma_count_one_change(g, g2, k - 1, y);
        }
    }
}

/// Appending triangles adds their edges to the count.
proof fn lemma_triangle_edges_push(tris: Seq<[i32; 3]>, t: [i32; 3], a: i32, b: i32)
    ensures
        triangle_edge_count(tris.push(t), a, b) == triangle_edge_count(tris, a, b) + edge_is(
            (t[0], t[1]),
            a,
            b,
        ) + edge_is((t[1], t[2]), a, b) + edge_is((t[2], t[0]), a, b),
{
    assert(tris.push(t).drop_last() =~= tris);
}

/// The triangle of the left neighbour of `ear`, `ear` and its right
/// neighbour, as mesh indices, unless two of them share a mesh index.
pub open spec fn ear_triangle(nodes: Seq<RingVert>, ear: int) -> Option<[i32; 3]> {
    let ml = nodes[nodes[ear].left as int].mesh_idx;
    let me = nodes[ear].mesh_idx;
    let mr = nodes[nodes[ear].right as int].mesh_idx;
    if ml != me && me != mr && mr != ml {
        Some([ml, me, mr])
    } else {
        None
    }
}

/// The rings of all vertices.
pub struct PolygonRings {
    verts: Vec<RingVert>,
    rings: Ghost<Seq<Seq<int>>>,
    loc: Ghost<Map<int, (int, int)>>,
    clip_time: Ghost<Map<int, nat>>,
    clock: Ghost<nat>,
    emitted: Ghost<Seq<[i32; 3]>>,
    initial: Ghost<Seq<RingVert>>,
}

impl PolygonRings {
    /// The vertices, by index.
    pub closed spec fn nodes(&self) -> Seq<RingVert> {
        self.verts@
    }

    /// The rings that are still open: each lists its vertices in the order of
    /// their right links. A ring emptied by a join stays as an empty sequence.
    pub closed spec fn rings(&self) -> Seq<Seq<int>> {
        self.rings@
    }

    /// Ring and position of each vertex that has not been clipped.
    pub closed spec fn loc(&self) -> Map<int, (int, int)> {
        self.loc@
    }

    /// When each clipped vertex was clipped.
    pub closed spec fn clip_time(&self) -> Map<int, nat> {
        self.clip_time@
    }

    /// Number of clips so far.
    pub closed spec fn clock(&self) -> nat {
        self.clock@
    }

    /// The triangles that the clips have returned so far, in order.
    pub closed spec fn emitted(&self) -> Seq<[i32; 3]> {
        self.emitted@
    }

    /// The vertices as the polygons gave them, before any clip or join.
    pub closed spec fn initial(&self) -> Seq<RingVert> {
        self.initial@
    }

    /// `v` is a vertex that has not been clipped.
    pub open spec fn is_live(&self, v: int) -> bool {
        self.loc().dom().contains(v)
    }

    /// The ring that holds the live vertex `v`.
    pub open spec fn ring_id(&self, v: int) -> int {
        self.loc()[v].0
    }

    /// The position of the live vertex `v` in its ring.
    pub open spec fn ring_pos(&self, v: int) -> int {
        self.loc()[v].1
    }

    /// The ring that holds the live vertex `v`.
    pub open spec fn ring_of(&self, v: int) -> Seq<int> {
        self.rings()[self.ring_id(v)]
    }

    /// Every link points at a vertex.
    pub open spec fn links_in_bounds(&self) -> bool {
        forall|v: int|
            #![trigger self.nodes()[v]]
            0 <= v < self.nodes().len() ==> self.nodes()[v].left < self.nodes().len()
                && self.nodes()[v].right < self.nodes().len()
    }

    /// Each live vertex is where its location says.
    pub open spec fn loc_ok(&self) -> bool {
        forall|v: int|
            #[trigger] self.loc().dom().contains(v) ==> {
                let (r, i) = self.loc()[v];
                &&& 0 <= v < self.nodes().len()
                &&& 0 <= r < self.rings().len()
                &&& 0 <= i < self.rings()[r].len()
                &&& self.rings()[r][i] == v
            }
    }

    /// Each ring member is live at its position.
    pub open spec fn rings_ok(&self) -> bool {
        forall|r: int, i: int|
            0 <= r < self.rings().len() && 0 <= i < self.rings()[r].len() ==> {
                let v = #[trigger] self.rings()[r][i];
                &&& self.loc().dom().contains(v)
                &&& self.loc()[v] == (r, i)
            }
    }

    /// The links of each live vertex go to its ring neighbours.
    pub open spec fn links_ok(&self) -> bool {
        forall|v: int|
            #![trigger self.nodes()[v]]
            self.loc().dom().contains(v) ==> {
                let (r, i) = self.loc()[v];
                let m = self.rings()[r].len() as int;
                &&& self.nodes()[v].right == self.rings()[r][ring_next(i, m)]
                &&& self.nodes()[v].left == self.rings()[r][ring_prev(i, m)]
            }
    }

    /// `v` is a vertex that has been clipped.
    pub open spec fn is_clipped(&self, v: int) -> bool {
        0 <= v < self.nodes().len() && !self.loc().dom().contains(v)
    }

    /// A clipped vertex keeps its links, but its right neighbour no longer
    /// links back to it; and its right neighbour is live or was clipped later.
    pub open spec fn clipped_ok(&self) -> bool {
        forall|v: int|
            #[trigger] self.is_clipped(v) ==> {
                let c = self.nodes()[v].right as int;
                &&& self.clip_time().dom().contains(v)
                &&& self.clip_time()[v] < self.clock()
                &&& self.nodes()[c].left != v
                &&& self.nodes()[v].left != v
                &&& (self.loc().dom().contains(c) || (self.clip_time().dom().contains(c)
                    && self.clip_time()[c] > self.clip_time()[v]))
            }
    }

    /// 1 where the live vertex `v` and its right neighbour make a directed
    /// ring edge from mesh index `a` to `b`.
    pub open spec fn ring_edge_at(&self, v: int, a: i32, b: i32) -> int {
        if self.is_live(v) {
            input_edge_at(self.nodes(), v, a, b)
        } else {
            0
        }
    }

    /// `ring_edge_at` as a function of the vertex.
    pub open spec fn ring_edges(&self, a: i32, b: i32) -> spec_fn(int) -> int {
        |v: int| self.ring_edge_at(v, a, b)
    }

    /// How many ring edges go from mesh index `a` to `b`.
    pub open spec fn ring_edge_count(&self, a: i32, b: i32) -> int {
        count_upto(self.ring_edges(a, b), self.nodes().len() as int)
    }

    /// `input_edge_at` of the vertices as given, as a function of the vertex.
    pub open spec fn input_edges(&self, a: i32, b: i32) -> spec_fn(int) -> int {
        |v: int| input_edge_at(self.initial(), v, a, b)
    }

    /// How many edges of the polygons as given go from mesh index `a` to `b`.
    pub open spec fn input_edge_count(&self, a: i32, b: i32) -> int {
        count_upto(self.input_edges(a, b), self.initial().len() as int)
    }

    /// Edges from `a` to `b` of the returned triangles and of the rings, less
    /// those of the polygons as given.
    pub open spec fn edge_surplus(&self, a: i32, b: i32) -> int {
        triangle_edge_count(self.emitted(), a, b) + self.ring_edge_count(a, b)
            - self.input_edge_count(a, b)
    }

    /// The returned triangles and the remaining ring edges make up the edges
    /// of the polygons as given, in their directions, plus pairs of opposite
    /// edges that cancel: every surplus from `a` to `b` is matched by one from
    /// `b` to `a`.
    pub open spec fn edges_balanced(&self) -> bool {
        forall|a: i32, b: i32| #[trigger] self.edge_surplus(a, b) == self.edge_surplus(b, a)
    }

    /// The rings are circular and consistent with the links, and their edges
    /// with the triangles returned balance the edges of the polygons as given.
    pub open spec fn wf(&self) -> bool {
        &&& self.links_in_bounds()
        &&& self.loc_ok()
        &&& self.rings_ok()
        &&& self.links_ok()
        &&& self.clipped_ok()
        &&& self.edges_balanced()
    }

    /// Two positions of one ring hold the same vertex only if they are equal.
    proof fn lemma_distinct(&self, r: int, i: int, j: int)
        requires
            self.wf(),
            0 <= r < self.rings().len(),
            0 <= i < self.rings()[r].len(),
            0 <= j < self.rings()[r].len(),
            self.rings()[r][i] == self.rings()[r][j],
        ensures
            i == j,
    {
        let v = self.rings()[r][i];
        assert(self.loc()[v] == (r, i));
        assert(self.rings()[r][j] == v);
    }

    /// Facts about a live vertex: it sits in its ring, and its neighbours are
    /// the ring neighbours.
    pub proof fn lemma_live(&self, v: int)
        requires
            self.wf(),
            self.is_live(v),
        ensures
            0 <= v < self.nodes().len(),
            0 <= self.ring_id(v) < self.rings().len(),
            0 <= self.ring_pos(v) < self.ring_of(v).len(),
            self.ring_of(v)[self.ring_pos(v)] == v,
            self.nodes()[v].right == self.ring_of(v)[ring_next(
                self.ring_pos(v),
                self.ring_of(v).len() as int,
            )],
            self.nodes()[v].left == self.ring_of(v)[ring_prev(
                self.ring_pos(v),
                self.ring_of(v).len() as int,
            )],
            self.is_live(self.nodes()[v].right as int),
            self.is_live(self.nodes()[v].left as int),
            self.ring_id(self.nodes()[v].right as int) == self.ring_id(v),
            self.ring_id(self.nodes()[v].left as int) == self.ring_id(v),
            self.nodes()[self.nodes()[v].right as int].left == v,
            self.nodes()[self.nodes()[v].left as int].right == v,
    {
        let (r, i) = self.loc()[v];
        let ring = self.rings()[r];
        let m = ring.len() as int;
        assert(ring[i] == v);
        let n = ring_next(i, m);
        let p = ring_prev(i, m);
        assert(self.rings()[r][n] == ring[n]);
        assert(self.rings()[r][p] == ring[p]);
        assert(ring_prev(n, m) == i);
        assert(ring_next(p, m) == i);
    }

    ///Build the circular list polygon structures: polygon `k` becomes ring
    ///`k`, made of its vertices in order, stored one polygon after the other.
    ///Also returns the first vertex of each polygon.
    pub fn from_polygons<P>(polys: &Vec<Vec<PolyVert<P>>>) -> (res: (PolygonRings, Vec<usize>))
        requires
            forall|k: int| 0 <= k < polys@.len() ==> #[trigger] polys@[k].len() >= 1,
            total_verts(polys@) <= usize::MAX,
        ensures
            res.0.wf(),
            res.0.clock() == 0,
            res.0.emitted() == Seq::<[i32; 3]>::empty(),
            res.0.initial() == res.0.nodes(),
            res.0.nodes().len() == total_verts(polys@),
            res.0.rings().len() == polys@.len(),
            res.1@.len() == polys@.len(),
            forall|k: int|
                0 <= k < polys@.len() ==> {
                    &&& #[trigger] res.1@[k] == poly_offset(polys@, k)
                    &&& res.0.rings()[k] == span_ring(
                        poly_offset(polys@, k),
                        polys@[k].len() as int,
                    )
                },
            forall|k: int, j: int|
                0 <= k < polys@.len() && 0 <= j < polys@[k].len() ==> res.0.nodes()[poly_offset(
                    polys@,
                    k,
                ) + j].mesh_idx == (#[trigger] polys@[k]@[j]).idx,
            forall|v: int| 0 <= v < res.0.nodes().len() ==> res.0.is_live(v),
    {
        let mut res = PolygonRings {
            verts: Vec::new(),
            rings: Ghost(Seq::empty()),
            loc: Ghost(Map::empty()),
            clip_time: Ghost(Map::empty()),
            clock: Ghost(0),
            emitted: Ghost(Seq::empty()),
            initial: Ghost(Seq::empty()),
        };
        let mut starts: Vec<usize> = Vec::new();
        let mut k: usize = 0;
        while k < polys.len()
            invariant
                k <= polys.len(),
                forall|t: int| 0 <= t < polys@.len() ==> #[trigger] polys@[t].len() >= 1,
                total_verts(polys@) <= usize::MAX,
                res.wf(),
                res.clock() == 0,
                res.emitted() == Seq::<[i32; 3]>::empty(),
                res.initial() == res.nodes(),
                res.nodes().len() == poly_offset(polys@, k as int),
                res.rings().len() == k,
                starts@.len() == k,
                forall|t: int|
                    0 <= t < k ==> {
                        &&& #[trigger] starts@[t] == poly_offset(polys@, t)
                        &&& res.rings()[t] == span_ring(
                            poly_offset(polys@, t),
                            polys@[t].len() as int,
                        )
                    },
                forall|t: int, j: int|
                    0 <= t < k && 0 <= j < polys@[t].len() ==> res.nodes()[poly_offset(polys@, t)
                        + j].mesh_idx == (#[trigger] polys@[t]@[j]).idx,
                forall|v: int| 0 <= v < res.nodes().len() ==> res.is_live(v),
            decreases polys.len() - k,
        {
            proof {
                lemma_offset_step(polys@, k as int);
                lemma_total_prefix(polys@, k as int + 1);
            }
            let poly = &polys[k];
            let m = poly.len();
            let s = res.verts.len();
            starts.push(s);
            let ghost old_res = res;
            proof {
                res.rings@ = res.rings@.push(span_ring(s as int, m as int));
            }
            let mut j: usize = 0;
            while j < m
                invariant
                    k < polys.len(),
                    poly == &polys@[k as int],
                    m == poly@.len() >= 1,
                    s == old_res.nodes().len(),
                    s + m <= usize::MAX,
                    old_res.wf(),
                    forall|v: int| 0 <= v < old_res.nodes().len() ==> old_res.is_live(v),
                    old_res.rings().len() == k,
                    res.rings() == old_res.rings().push(span_ring(s as int, m as int)),
                    res.clip_time() == old_res.clip_time(),
                    res.clock() == old_res.clock(),
                    res.emitted() == old_res.emitted(),
                    old_res.emitted() == Seq::<[i32; 3]>::empty(),
                    0 <= j <= m,
                    res.nodes().len() == s + j,
                    res.nodes().subrange(0, s as int) == old_res.nodes(),
                    forall|t: int|
                        0 <= t < j ==> #[trigger] res.nodes()[s + t] == (RingVert {
                            mesh_idx: poly@[t].idx,
                            left: (s + ring_prev(t, m as int)) as usize,
                            right: (s + ring_next(t, m as int)) as usize,
                        }),
                    res.loc() == Map::new(
                        |v: int| old_res.loc().dom().contains(v) || s <= v < s + j,
                        |v: int|
                            if old_res.loc().dom().contains(v) {
                                old_res.loc()[v]
                            } else {
                                (k as int, v - s)
                            },
                    ),
                decreases m - j,
            {
                let left = if j == 0 {
                    s + m - 1
                } else {
                    s + j - 1
                };
                let right = if j + 1 == m {
                    s
                } else {
                    s + j + 1
                };
                res.verts.push(RingVert { mesh_idx: poly[j].idx, left, right });
                proof {
                    res.loc@ = Map::new(
                        |v: int| old_res.loc().dom().contains(v) || s <= v < s + j + 1,
                        |v: int|
                            if old_res.loc().dom().contains(v) {
                                old_res.loc()[v]
                            } else {
                                (k as int, v - s)
                            },
                    );
                    assert forall|t: int| 0 <= t < j + 1 implies #[trigger] res.nodes()[s + t] == (
                    RingVert {
                        mesh_idx: poly@[t].idx,
                        left: (s + ring_prev(t, m as int)) as usize,
                        right: (s + ring_next(t, m as int)) as usize,
                    }) by {}
                    assert(res.nodes().subrange(0, s as int) =~= old_res.nodes());
                }
                j = j + 1;
            }
            proof {
                res.initial@ = res.verts@;
                Self::lemma_appended_ring_wf(old_res, res, s as int, m as int);
                assert forall|t: int, jj: int|
                    0 <= t < k + 1 && 0 <= jj < polys@[t].len() implies res.nodes()[poly_offset(
                    polys@,
                    t,
                ) + jj].mesh_idx == (#[trigger] polys@[t]@[jj]).idx by {
                    if t < k {
                        lemma_total_prefix(polys@.take(k as int), t + 1);
                        assert(polys@.take(k as int).take(t + 1) =~= polys@.take(t + 1));
                        lemma_offset_step(polys@, t);
                        lemma_total_prefix(polys@, t);
                        assert(total_verts(polys@.take(k as int)) == s);
                        assert(poly_offset(polys@.take(k as int), t + 1) == poly_offset(polys@, t + 1));
                        assert(poly_offset(polys@, t) + jj < s);
                        assert(res.nodes()[poly_offset(polys@, t) + jj] == res.nodes().subrange(
                            0,
                            s as int,
                        )[poly_offset(polys@, t) + jj]);
                    } else {
                        assert(res.nodes()[s + jj] == res.nodes()[s + jj]);
                    }
                }
            }
            k = k + 1;
        }
        proof {
            assert(polys@.take(polys@.len() as int) =~= polys@);
        }
        (res, starts)
    }

    /// Appending a complete ring of fresh vertices to a well-formed structure
    /// keeps it well-formed.
    proof fn lemma_appended_ring_wf(old_res: PolygonRings, res: PolygonRings, s: int, m: int)
        requires
            old_res.wf(),
            forall|v: int| 0 <= v < old_res.nodes().len() ==> old_res.is_live(v),
            s == old_res.nodes().len(),
            m >= 1,
            res.rings() == old_res.rings().push(span_ring(s, m)),
            res.clip_time() == old_res.clip_time(),
            res.clock() == old_res.clock(),
            res.emitted() == Seq::<[i32; 3]>::empty(),
            res.initial() == res.nodes(),
            res.nodes().len() == s + m,
            res.nodes().subrange(0, s) == old_res.nodes(),
            forall|t: int|
                0 <= t < m ==> (#[trigger] res.nodes()[s + t]).left == s + ring_prev(t, m)
                    && res.nodes()[s + t].right == s + ring_next(t, m),
            res.loc() == Map::new(
                |v: int| old_res.loc().dom().contains(v) || s <= v < s + m,
                |v: int|
                    if old_res.loc().dom().contains(v) {
                        old_res.loc()[v]
                    } else {
                        (old_res.rings().len() as int, v - s)
                    },
            ),
        ensures
            res.wf(),
            forall|v: int| 0 <= v < res.nodes().len() ==> res.is_live(v),
    {
        let k = old_res.rings().len() as int;
        assert forall|v: int| 0 <= v < s implies #[trigger] res.nodes()[v] == old_res.nodes()[v] by {
            assert(res.nodes().subrange(0, s)[v] == res.nodes()[v]);
        }
        assert forall|v: int| 0 <= v < res.nodes().len() implies #[trigger] res.nodes()[v].left
            < res.nodes().len() && res.nodes()[v].right < res.nodes().len() by {
            if v < s {
                assert(old_res.nodes()[v] == old_res.nodes()[v]);
            } else {
                assert(res.nodes()[s + (v - s)] == res.nodes()[v]);
            }
        }
        assert forall|v: int| #[trigger] res.loc().dom().contains(v) implies {
            let (r, i) = res.loc()[v];
            &&& 0 <= v < res.nodes().len()
            &&& 0 <= r < res.rings().len()
            &&& 0 <= i < res.rings()[r].len()
            &&& res.rings()[r][i] == v
        } by {
            if old_res.loc().dom().contains(v) {
                let (r, i) = old_res.loc()[v];
                assert(res.rings()[r] == old_res.rings()[r]);
            }
        }
        assert forall|r: int, i: int|
            0 <= r < res.rings().len() && 0 <= i < res.rings()[r].len() implies {
            let v = #[trigger] res.rings()[r][i];
            let mm = res.rings()[r].len() as int;
            &&& res.loc().dom().contains(v)
            &&& res.loc()[v] == (r, i)
            &&& res.nodes()[v].right == res.rings()[r][ring_next(i, mm)]
            &&& res.nodes()[v].left == res.rings()[r][ring_prev(i, mm)]
        } by {
            if r < k {
                assert(res.rings()[r] == old_res.rings()[r]);
                let v = old_res.rings()[r][i];
                assert(old_res.loc().dom().contains(v));
                assert(old_res.nodes()[v] == old_res.nodes()[v]);
            } else {
                assert(res.rings()[r] == span_ring(s, m));
                let v = s + i;
                assert(!old_res.loc().dom().contains(v)) by {
                    if old_res.loc().dom().contains(v) {
                        assert(v < s);
                    }
                }
                assert(res.nodes()[s + i] == res.nodes()[v]);
            }
        }
        assert forall|v: int| 0 <= v < res.nodes().len() implies res.is_live(v) by {
            if v < s {
                assert(old_res.is_live(v));
            }
        }
        res.lemma_all_live_detached();
        res.lemma_fresh_balanced();
    }

    /// Before any clip or join, with every vertex live, the ring edges are
    /// the edges of the polygons as given, so the edges balance.
    proof fn lemma_fresh_balanced(&self)
        requires
            forall|v: int| 0 <= v < self.nodes().len() ==> self.is_live(v),
            self.emitted() == Seq::<[i32; 3]>::empty(),
            self.initial() == self.nodes(),
        ensures
            self.edges_balanced(),
    {
        let n = self.nodes().len() as int;
        assert forall|a: i32, b: i32| #[trigger] self.edge_surplus(a, b) == self.edge_surplus(b, a) by {
            assert forall|x: int| 0 <= x < n implies #[trigger] self.ring_edges(a, b)(x) == self.input_edges(a, b)(x) by {
                assert(self.is_live(x));
            }
            assert forall|x: int| 0 <= x < n implies #[trigger] self.ring_edges(b, a)(x) == self.input_edges(b, a)(x) by {
                assert(self.is_live(x));
            }
            lemma_count_agree(self.ring_edges(a, b), self.input_edges(a, b), n);
            lemma_count_agree(self.ring_edges(b, a), self.input_edges(b, a), n);
        }
    }

    /// With no clipped vertex, the clipped ones trivially keep their links.
    proof fn lemma_all_live_detached(&self)
        requires
            forall|v: int| 0 <= v < self.nodes().len() ==> self.is_live(v),
        ensures
            self.clipped_ok(),
    {
        assert forall|v: int| #[trigger] self.is_clipped(v) implies false by {
            assert(self.is_live(v));
        }
    }

    ///This function and JoinPolygons are the only functions that affect the
    ///circular list data structure. This helps ensure it remains circular.
    fn link(&mut self, left: usize, right: usize)
        requires
            left < old(self).nodes().len(),
            right < old(self).nodes().len(),
        ensures
            final(self).nodes() == linked(old(self).nodes(), left as int, right as int),
            final(self).rings() == old(self).rings(),
            final(self).loc() == old(self).loc(),
            final(self).clip_time() == old(self).clip_time(),
            final(self).clock() == old(self).clock(),
            final(self).emitted() == old(self).emitted(),
            final(self).initial() == old(self).initial(),
    {
        let mut l = self.verts[left];
        l.right = right;
        self.verts.set(left, l);
        let mut r = self.verts[right];
        r.left = left;
        self.verts.set(right, r);
    }

    /// Clips the ear `ear` off its ring: its neighbours get linked to each
    /// other, and the ear leaves the ring. Returns the triangle of the ear's
    /// left neighbour, the ear and its right neighbour, as mesh indices, unless
    /// two of them share a mesh index: such topological degenerates can form in
    /// bad triangulations of polygons with holes, due to vert duplication.
    pub fn clip_ear(&mut self, ear: usize) -> (tri: Option<[i32; 3]>)
        requires
            old(self).wf(),
            old(self).is_live(ear as int),
            old(self).ring_of(ear as int).len() >= 2,
        ensures
            final(self).wf(),
            final(self).nodes() == linked(
                old(self).nodes(),
                old(self).nodes()[ear as int].left as int,
                old(self).nodes()[ear as int].right as int,
            ),
            final(self).rings() == old(self).rings().update(
                old(self).ring_id(ear as int),
                old(self).ring_of(ear as int).remove(old(self).ring_pos(ear as int)),
            ),
            forall|v: int| #[trigger]
                final(self).is_live(v) == (old(self).is_live(v) && v != ear),
            forall|v: int|
                #![trigger final(self).loc()[v]]
                final(self).is_live(v) && final(self).ring_id(v) != old(self).ring_id(ear as int)
                    ==> final(self).loc()[v] == old(self).loc()[v],
            forall|v: int|
                #![trigger final(self).loc()[v]]
                final(self).is_live(v) ==> final(self).ring_id(v) == old(self).ring_id(v),
            final(self).clock() == old(self).clock() + 1,
            final(self).emitted() == old(self).emitted() + triangles_of(tri),
            final(self).initial() == old(self).initial(),
            final(self).nodes()[ear as int] == old(self).nodes()[ear as int],
            final(self).is_live(old(self).nodes()[ear as int].left as int),
            final(self).ring_of(old(self).nodes()[ear as int].left as int).len() == old(
                self,
            ).ring_of(ear as int).len() - 1,
            ({
                let nodes = old(self).nodes();
                let ml = nodes[nodes[ear as int].left as int].mesh_idx;
                let me = nodes[ear as int].mesh_idx;
                let mr = nodes[nodes[ear as int].right as int].mesh_idx;
                tri == if ml != me && me != mr && mr != ml {
                    Some([ml, me, mr])
                } else {
                    None::<[i32; 3]>
                }
            }),
    {
        let ghost pre = *self;
        proof {
            self.lemma_live(ear as int);
        }
        let left = self.verts[ear].left;
        let right = self.verts[ear].right;
        self.link(left, right);
        proof {
            let rid = pre.ring_id(ear as int);
            let p = pre.ring_pos(ear as int);
            let clock = pre.clock();
            self.rings@ = pre.rings().update(rid, pre.ring_of(ear as int).remove(p));
            self.loc@ = loc_after_clip(pre.loc(), ear as int, rid, p);
            self.clip_time@ = pre.clip_time().insert(ear as int, clock);
            self.clock@ = clock + 1;
            self.emitted@ = pre.emitted() + triangles_of(ear_triangle(pre.nodes(), ear as int));
            assert(self.loc() == loc_after_clip(pre.loc(), ear as int, rid, p));
            Self::lemma_clip_wf(pre, *self, ear as int);
            let l = pre.nodes()[ear as int].left as int;
            assert(pre.loc()[l].0 == rid);
            if l == ear {
                pre.lemma_distinct(rid, ring_prev(p, pre.ring_of(ear as int).len() as int), p);
            }
            assert(self.loc()[l].0 == rid);
        }
        let self_mesh = self.verts[ear].mesh_idx;
        let left_mesh = self.verts[left].mesh_idx;
        let right_mesh = self.verts[right].mesh_idx;
        if left_mesh != self_mesh && self_mesh != right_mesh && right_mesh != left_mesh {
            Some([left_mesh, self_mesh, right_mesh])
        } else {
            None
        }
    }

    /// `post` is `pre` after the live ear `ear`, on a ring of two or more,
    /// has been clipped.
    spec fn clip_step(pre: PolygonRings, post: PolygonRings, ear: int) -> bool {
        &&& pre.wf()
        &&& pre.is_live(ear)
        &&& pre.ring_of(ear).len() >= 2
        &&& post.nodes() == linked(
            pre.nodes(),
            pre.nodes()[ear].left as int,
            pre.nodes()[ear].right as int,
        )
        &&& post.rings() == pre.rings().update(
            pre.ring_id(ear),
            pre.ring_of(ear).remove(pre.ring_pos(ear)),
        )
        &&& post.loc() == loc_after_clip(pre.loc(), ear, pre.ring_id(ear), pre.ring_pos(ear))
        &&& post.clip_time() == pre.clip_time().insert(ear, pre.clock())
        &&& post.clock() == pre.clock() + 1
        &&& post.emitted() == pre.emitted() + triangles_of(ear_triangle(pre.nodes(), ear))
        &&& post.initial() == pre.initial()
    }

    /// The ear's neighbours, the shortened ring, and which vertices a clip
    /// changes.
    proof fn lemma_clip_facts(pre: PolygonRings, post: PolygonRings, ear: int)
        requires
            Self::clip_step(pre, post, ear),
        ensures
            ({
                let rid = pre.ring_id(ear);
                let p = pre.ring_pos(ear);
                let ring = pre.ring_of(ear);
                let m = ring.len() as int;
                let nr = ring.remove(p);
                let l = pre.nodes()[ear].left as int;
                let r = pre.nodes()[ear].right as int;
                let pl = ring_prev(p, m);
                let pr = ring_next(p, m);
                let n = pre.nodes().len();
                &&& 0 <= rid < pre.rings().len()
                &&& 0 <= p < m
                &&& ring[p] == ear
                &&& ring[pl] == l
                &&& ring[pr] == r
                &&& pl != p
                &&& pr != p
                &&& l != ear
                &&& r != ear
                &&& pre.is_live(l)
                &&& pre.is_live(r)
                &&& pre.loc()[l] == (rid, pl)
                &&& pre.loc()[r] == (rid, pr)
                &&& nr.len() == m - 1
                &&& forall|j: int|
                    0 <= j < m - 1 ==> #[trigger] nr[j] == ring[if j < p {
                        j
                    } else {
                        j + 1
                    }]
                &&& post.nodes().len() == n
                &&& forall|v: int|
                    0 <= v < n && v != l && v != r ==> #[trigger] post.nodes()[v] == pre.nodes()[v]
                &&& post.nodes()[l].right == r
                &&& post.nodes()[r].left == l
                &&& l != r ==> post.nodes()[l].left == pre.nodes()[l].left
                &&& l != r ==> post.nodes()[r].right == pre.nodes()[r].right
                &&& post.nodes()[l].mesh_idx == pre.nodes()[l].mesh_idx
                &&& post.nodes()[r].mesh_idx == pre.nodes()[r].mesh_idx
            }),
    {
        pre.lemma_live(ear);
        let rid = pre.ring_id(ear);
        let p = pre.ring_pos(ear);
        let ring = pre.ring_of(ear);
        let m = ring.len() as int;
        let nr = ring.remove(p);
        let l = pre.nodes()[ear].left as int;
        let r = pre.nodes()[ear].right as int;
        let pl = ring_prev(p, m);
        let pr = ring_next(p, m);
        assert(ring[pl] == l);
        assert(ring[pr] == r);
        assert(pl != p);
        assert(pr != p);
        assert(l != ear) by {
            if l == ear {
                pre.lemma_distinct(rid, pl, p);
            }
        }
        assert(r != ear) by {
            if r == ear {
                pre.lemma_distinct(rid, pr, p);
            }
        }
        assert(nr.len() == m - 1);
        assert forall|j: int| 0 <= j < m - 1 implies #[trigger] nr[j] == ring[
            if j < p {
                j
            } else {
                j + 1
            }
        ] by {}
        let n = pre.nodes().len();
        assert(post.nodes().len() == n);
        // nodes other than l and r are unchanged
        assert forall|v: int| 0 <= v < n && v != l && v != r implies #[trigger] post.nodes()[v]
            == pre.nodes()[v] by {}
        assert(post.nodes()[l].right == r);
        assert(post.nodes()[r].left == l);
        assert(l != r ==> post.nodes()[l].left == pre.nodes()[l].left);
        assert(l != r ==> post.nodes()[r].right == pre.nodes()[r].right);
        assert(post.nodes()[l].mesh_idx == pre.nodes()[l].mesh_idx);
        assert(post.nodes()[r].mesh_idx == pre.nodes()[r].mesh_idx);
        assert(pre.rings()[rid][pl] == l);
        assert(pre.rings()[rid][pr] == r);
    }

    /// Clipping a live ear of a ring of two or more keeps the structure
    /// well-formed.
    proof fn lemma_clip_wf(pre: PolygonRings, post: PolygonRings, ear: int)
        requires
            Self::clip_step(pre, post, ear),
        ensures
            post.wf(),
    {
        Self::lemma_clip_links(pre, post, ear);
        Self::lemma_clip_loc(pre, post, ear);
        Self::lemma_clip_rings(pre, post, ear);
        Self::lemma_clip_detached(pre, post, ear);
        Self::lemma_clip_balanced(pre, post, ear);
    }

    /// A clip keeps the edges balanced: the ring loses the edges from the
    /// left neighbour to the ear and from the ear to the right neighbour and
    /// gains the one between the neighbours, and a returned triangle adds the
    /// two lost edges and the reverse of the gained one.
    proof fn lemma_clip_balanced(pre: PolygonRings, post: PolygonRings, ear: int)
        requires
            Self::clip_step(pre, post, ear),
        ensures
            post.edges_balanced(),
    {
        let l = pre.nodes()[ear].left as int;
        let r = pre.nodes()[ear].right as int;
        let ml = pre.nodes()[l].mesh_idx;
        let me = pre.nodes()[ear].mesh_idx;
        let mr = pre.nodes()[r].mesh_idx;
        assert forall|a: i32, b: i32| #[trigger] post.edge_surplus(a, b) == post.edge_surplus(b, a) by {
            Self::lemma_clip_surplus(pre, post, ear, a, b);
            Self::lemma_clip_surplus(pre, post, ear, b, a);
            assert(pre.edge_surplus(a, b) == pre.edge_surplus(b, a));
        }
    }

    /// How a clip changes the surplus of edges from `a` to `b`.
    #[verifier::spinoff_prover]
    proof fn lemma_clip_surplus(pre: PolygonRings, post: PolygonRings, ear: int, a: i32, b: i32)
        requires
            Self::clip_step(pre, post, ear),
        ensures
            ({
                let l = pre.nodes()[ear].left as int;
                let r = pre.nodes()[ear].right as int;
                let ml = pre.nodes()[l].mesh_idx;
                let me = pre.nodes()[ear].mesh_idx;
                let mr = pre.nodes()[r].mesh_idx;
                post.edge_surplus(a, b) == pre.edge_surplus(a, b) + edge_is((ml, mr), a, b)
                    - edge_is((ml, me), a, b) - edge_is((me, mr), a, b) + if ml != me && me != mr
                    && mr != ml {
                    edge_is((ml, me), a, b) + edge_is((me, mr), a, b) + edge_is((mr, ml), a, b)
                } else {
                    0
                }
            }),
    {
        Self::lemma_clip_facts(pre, post, ear);
        pre.lemma_live(ear);
        let n = pre.nodes().len() as int;
        let l = pre.nodes()[ear].left as int;
        let r = pre.nodes()[ear].right as int;
        let ml = pre.nodes()[l].mesh_idx;
        let me = pre.nodes()[ear].mesh_idx;
        let mr = pre.nodes()[r].mesh_idx;
        let f = pre.ring_edges(a, b);
        let g = post.ring_edges(a, b);
        assert forall|y: int| 0 <= y < n implies #[trigger] post.nodes()[y].mesh_idx
            == pre.nodes()[y].mesh_idx by {}
        assert forall|x: int| 0 <= x < n && x != ear && x != l implies #[trigger] f(x) == g(x) by {
            assert(post.is_live(x) == pre.is_live(x));
            assert(pre.nodes()[x].right < n);
            if x == r {
                assert(post.nodes()[x].right == pre.nodes()[x].right);
            } else {
                assert(post.nodes()[x] == pre.nodes()[x]);
            }
        }
        assert(f(ear) == edge_is((me, mr), a, b));
        assert(g(ear) == 0);
        assert(f(l) == edge_is((ml, me), a, b));
        assert(post.is_live(l));
        assert(g(l) == edge_is((ml, mr), a, b));
        lemma_count_two_changes(f, g, n, ear, l);
        lemma_count_agree(pre.input_edges(a, b), post.input_edges(a, b), pre.initial().len() as int);
        let tri = ear_triangle(pre.nodes(), ear);
        match tri {
            Some(t) => {
                assert(post.emitted() == pre.emitted().push(t));
                lemma_triangle_edges_push(pre.emitted(), t, a, b);
            },
            None => {
                assert(post.emitted() =~= pre.emitted());
            },
        }
    }

    #[verifier::spinoff_prover]
    proof fn lemma_clip_links(pre: PolygonRings, post: PolygonRings, ear: int)
        requires
            Self::clip_step(pre, post, ear),
        ensures
            post.links_in_bounds(),
    {
        Self::lemma_clip_facts(pre, post, ear);
        let n = pre.nodes().len();

        // links in bounds
        assert forall|v: int| 0 <= v < post.nodes().len() implies #[trigger] post.nodes()[v].left
            < post.nodes().len() && post.nodes()[v].right < post.nodes().len() by {
            assert(pre.nodes()[v].left < n);
        }
    }

    #[verifier::spinoff_prover]
    proof fn lemma_clip_loc(pre: PolygonRings, post: PolygonRings, ear: int)
        requires
            Self::clip_step(pre, post, ear),
        ensures
            post.loc_ok(),
    {
        Self::lemma_clip_facts(pre, post, ear);
        let rid = pre.ring_id(ear);
        let p = pre.ring_pos(ear);
        let ring = pre.ring_of(ear);
        let nr = ring.remove(p);

        // locations
        assert forall|v: int| #[trigger] post.loc().dom().contains(v) implies {
            let (rr, i) = post.loc()[v];
            &&& 0 <= v < post.nodes().len()
            &&& 0 <= rr < post.rings().len()
            &&& 0 <= i < post.rings()[rr].len()
            &&& post.rings()[rr][i] == v
        } by {
            assert(pre.loc().dom().contains(v));
            let (rr, oi) = pre.loc()[v];
            if rr == rid {
                assert(ring[oi] == v);
                assert(oi != p) by {
                    if oi == p {
                        assert(ring[p] == ear);
                    }
                }
                if oi > p {
                    assert(nr[oi - 1] == ring[oi]);
                } else {
                    assert(nr[oi] == ring[oi]);
                }
            }
        }
    }

    #[verifier::spinoff_prover]
    proof fn lemma_clip_rings(pre: PolygonRings, post: PolygonRings, ear: int)
        requires
            Self::clip_step(pre, post, ear),
        ensures
            post.rings_ok(),
    {
        Self::lemma_clip_facts(pre, post, ear);
        let rid = pre.ring_id(ear);
        let p = pre.ring_pos(ear);
        let ring = pre.ring_of(ear);
        let m = ring.len() as int;
        let nr = ring.remove(p);
        let l = pre.nodes()[ear].left as int;
        let r = pre.nodes()[ear].right as int;
        let pl = ring_prev(p, m);
        let pr = ring_next(p, m);

        // rings
        assert forall|rr: int, i: int|
            0 <= rr < post.rings().len() && 0 <= i < post.rings()[rr].len() implies {
            let v = #[trigger] post.rings()[rr][i];
            let mm = post.rings()[rr].len() as int;
            &&& post.loc().dom().contains(v)
            &&& post.loc()[v] == (rr, i)
            &&& post.nodes()[v].right == post.rings()[rr][ring_next(i, mm)]
            &&& post.nodes()[v].left == post.rings()[rr][ring_prev(i, mm)]
        } by {
            if rr != rid {
                let v = pre.rings()[rr][i];
                assert(post.rings()[rr] == pre.rings()[rr]);
                assert(pre.loc()[v] == (rr, i));
                assert(v != ear);
                assert(v != l && v != r) by {
                    assert(pre.loc()[l] == (rid, pl));
                    assert(pre.loc()[r] == (rid, pr));
                }
                assert(post.nodes()[v] == pre.nodes()[v]);
            } else {
                assert(post.rings()[rr] == nr);
                let oi = if i < p {
                    i
                } else {
                    i + 1
                };
                let v = nr[i];
                assert(v == ring[oi]);
                assert(pre.rings()[rid][oi] == v);
                assert(pre.loc()[v] == (rid, oi));
                assert(v != ear) by {
                    if v == ear {
                        pre.lemma_distinct(rid, oi, p);
                    }
                }
                let mm = m - 1;
                let ni = ring_next(i, mm);
                let pi = ring_prev(i, mm);
                assert(nr[ni] == ring[
                    if ni < p {
                        ni
                    } else {
                        ni + 1
                    }
                ]);
                assert(nr[pi] == ring[
                    if pi < p {
                        pi
                    } else {
                        pi + 1
                    }
                ]);
                assert(pre.rings()[rid][ring_next(oi, m)] == pre.nodes()[v].right);
                assert(pre.rings()[rid][ring_prev(oi, m)] == pre.nodes()[v].left);
                if v == l {
                    assert(oi == pl) by {
                        pre.lemma_distinct(rid, oi, pl);
                    }
                } else {
                    assert(oi != pl);
                }
                if v == r {
                    assert(oi == pr) by {
                        pre.lemma_distinct(rid, oi, pr);
                    }
                } else {
                    assert(oi != pr);
                }
            }
        }
    }

    #[verifier::spinoff_prover]
    proof fn lemma_clip_detached(pre: PolygonRings, post: PolygonRings, ear: int)
        requires
            Self::clip_step(pre, post, ear),
        ensures
            post.clipped_ok(),
    {
        Self::lemma_clip_facts(pre, post, ear);
        let l = pre.nodes()[ear].left as int;
        let r = pre.nodes()[ear].right as int;

        // clipped vertices
        assert forall|v: int| #[trigger] post.is_clipped(v) implies {
            let c = post.nodes()[v].right as int;
            &&& post.clip_time().dom().contains(v)
            &&& post.clip_time()[v] < post.clock()
            &&& post.nodes()[c].left != v
            &&& post.nodes()[v].left != v
            &&& (post.loc().dom().contains(c) || (post.clip_time().dom().contains(c)
                && post.clip_time()[c] > post.clip_time()[v]))
        } by {
            assert(pre.loc().dom().contains(l));
            assert(pre.loc().dom().contains(r));
            if v == ear {
                assert(post.nodes()[ear] == pre.nodes()[ear]);
                assert(post.loc().dom().contains(r));
            } else {
                assert(!pre.loc().dom().contains(v));
                assert(pre.is_clipped(v));
                assert(v != l && v != r);
                assert(post.nodes()[v] == pre.nodes()[v]);
                assert(pre.nodes()[v] == pre.nodes()[v]);
                let c = pre.nodes()[v].right as int;
                assert(pre.nodes()[c].left != v);
                if c == r {
                } else if c == l {
                } else {
                    assert(post.nodes()[c] == pre.nodes()[c]);
                }
                if pre.loc().dom().contains(c) && c != ear {
                    assert(post.loc().dom().contains(c));
                }
            }
        }
    }

    /// A clipped vertex whose right neighbour's left neighbour is clipped has
    /// a clipped right neighbour, clipped later than itself.
    pub proof fn lemma_clipped_step(&self, v: int)
        requires
            self.wf(),
            self.is_clipped(v),
            !self.is_live(self.nodes()[self.nodes()[v].right as int].left as int),
        ensures
            self.is_clipped(self.nodes()[v].right as int),
            self.clip_time()[v] < self.clip_time()[self.nodes()[v].right as int] < self.clock(),
            self.nodes()[self.nodes()[v].right as int].left != self.nodes()[v].right,
    {
        let c = self.nodes()[v].right as int;
        assert(self.nodes()[v].right < self.nodes().len());
        if self.is_live(c) {
            self.lemma_live(c);
        }
        assert(self.is_clipped(c));
    }

    /// The live vertex around whose ring a walk that starts at `v` goes: `v`
    /// itself if it is live; for a clipped `v`, the left neighbour of its right
    /// neighbour if that is live, else the vertex found from the right
    /// neighbour, which was clipped later.
    pub open spec fn walk_start(&self, v: int) -> int
        decreases self.clock() - self.clip_time()[v],
        when self.wf() && 0 <= v < self.nodes().len()
    {
        if self.is_live(v) {
            v
        } else {
            let c = self.nodes()[v].right as int;
            let nf = self.nodes()[c].left as int;
            if self.is_live(nf) {
                nf
            } else {
                proof {
                    self.lemma_clipped_step(v);
                }
                self.walk_start(c)
            }
        }
    }

    /// Where a walk starts is a live vertex.
    pub proof fn lemma_walk_start(&self, v: int)
        requires
            self.wf(),
            0 <= v < self.nodes().len(),
        ensures
            self.is_live(self.walk_start(v)),
        decreases self.clock() - self.clip_time()[v],
    {
        if !self.is_live(v) {
            let c = self.nodes()[v].right as int;
            let nf = self.nodes()[c].left as int;
            if !self.is_live(nf) {
                self.lemma_clipped_step(v);
                self.lemma_walk_start(c);
            }
        }
    }

    /// Element `k` of a ring read from position `i` on.
    proof fn lemma_rotate_index(ring: Seq<int>, i: int, k: int)
        requires
            0 <= i < ring.len(),
            0 <= k < ring.len(),
        ensures
            rotate(ring, i).len() == ring.len(),
            rotate(ring, i)[k] == ring[if i + k < ring.len() {
                i + k
            } else {
                i + k - ring.len()
            }],
    {
    }

    ///Visits the vertices of one ring in the order of their right links and
    ///returns them. The walk starts at `first`, or, if `first` has been
    ///clipped, at an un-clipped vert found from it, so that the walk returns to
    ///it instead of infinite-looping. The second result is that start, or
    ///`None` if its ring has shrunk to two verts or fewer; then no vert is
    ///visited.
    pub fn loop_verts(&self, first: usize) -> (res: (Vec<usize>, Option<usize>))
        requires
            self.wf(),
            first < self.nodes().len(),
        ensures
            ({
                let w = self.walk_start(first as int);
                let ring = self.ring_of(w);
                &&& self.is_live(w)
                &&& ring.len() <= 2 ==> res.0@.len() == 0 && res.1 == None::<usize>
                &&& ring.len() > 2 ==> {
                    &&& res.1 == Some(w as usize)
                    &&& res.0@.len() == ring.len()
                    &&& forall|k: int|
                        0 <= k < ring.len() ==> #[trigger] res.0@[k] == rotate(
                            ring,
                            self.ring_pos(w),
                        )[k]
                }
            }),
    {
        proof {
            self.lemma_walk_start(first as int);
        }
        let mut v = first;
        loop
            invariant
                self.wf(),
                v < self.nodes().len(),
                self.walk_start(v as int) == self.walk_start(first as int),
            ensures
                self.is_live(v as int),
                v == self.walk_start(first as int),
            decreases if self.is_live(v as int) {
                0
            } else {
                self.clock() - self.clip_time()[v as int] + 1
            },
        {
            if !self.clipped(v) {
                break;
            }
            proof {
                assert(self.is_clipped(v as int));
            }
            let c = self.verts[v].right;
            let new_first = self.verts[c].left;
            if !self.clipped(new_first) {
                v = new_first;
                break;
            }
            proof {
                self.lemma_clipped_step(v as int);
            }
            v = c;
            if v == new_first {
                // The walk is back at its start.
                return (Vec::new(), Some(v));
            }
        }
        let w = v;
        let ghost ring = self.ring_of(w as int);
        let ghost pw = self.ring_pos(w as int);
        let ghost m = ring.len() as int;
        proof {
            self.lemma_live(w as int);
        }
        let mut visited: Vec<usize> = Vec::new();
        if self.is_degenerate(w) {
            return (visited, None);
        }
        let mut u = w;
        loop
            invariant_except_break
                0 <= visited.len() < m,
                u == rotate(ring, pw)[visited.len() as int],
            invariant
                self.wf(),
                self.is_live(w as int),
                ring == self.ring_of(w as int),
                pw == self.ring_pos(w as int),
                m == ring.len() > 2,
                0 <= pw < m,
                ring[pw] == w,
                visited.len() <= m,
                forall|k: int|
                    0 <= k < visited.len() ==> #[trigger] visited@[k] == rotate(ring, pw)[k],
            ensures
                visited.len() == m,
                u == w,
                forall|k: int| 0 <= k < m ==> #[trigger] visited@[k] == rotate(ring, pw)[k],
            decreases m - visited.len(),
        {
            let ghost k = visited.len() as int;
            proof {
                Self::lemma_rotate_index(ring, pw, k);
                let pu = if pw + k < m {
                    pw + k
                } else {
                    pw + k - m
                };
                assert(self.rings()[self.ring_id(w as int)][pu] == u);
                assert(self.loc()[u as int] == (self.ring_id(w as int), pu));
                self.lemma_live(u as int);
                if k + 1 < m {
                    Self::lemma_rotate_index(ring, pw, k + 1);
                }
                assert(self.nodes()[u as int].right == ring[ring_next(pu, m)]);
                if ring_next(pu, m) == pw {
                    assert(k + 1 == m) by {
                        if k + 1 < m {
                            let pn = if pw + k + 1 < m {
                                pw + k + 1
                            } else {
                                pw + k + 1 - m
                            };
                            assert(pn != pw);
                        }
                    }
                } else if k + 1 == m {
                    assert(ring_next(pu, m) == pw);
                } else {
                    assert(ring[ring_next(pu, m)] != w) by {
                        if ring[ring_next(pu, m)] == w {
                            self.lemma_distinct(self.ring_id(w as int), ring_next(pu, m), pw);
                        }
                    }
                }
            }
            if self.is_degenerate(u) {
                return (visited, None);
            }
            visited.push(u);
            u = self.verts[u].right;
            if u == w {
                break;
            }
        }
        (visited, Some(u))
    }

    /// `post` is `pre` after a key-hole from the live `start` to the live
    /// `connector` of another ring.
    spec fn join_step(pre: PolygonRings, post: PolygonRings, start: int, connector: int) -> bool {
        &&& pre.wf()
        &&& pre.is_live(start)
        &&& pre.is_live(connector)
        &&& pre.ring_id(start) != pre.ring_id(connector)
        &&& pre.nodes().len() + 2 <= usize::MAX
        &&& post.nodes() == joined_nodes(pre.nodes(), start, connector)
        &&& post.rings() == pre.rings().update(
            pre.ring_id(connector),
            joined_ring(
                pre.ring_of(start),
                pre.ring_pos(start),
                pre.ring_of(connector),
                pre.ring_pos(connector),
                pre.nodes().len() as int,
            ),
        ).update(pre.ring_id(start), Seq::empty())
        &&& post.loc() == loc_after_join(
            pre.loc(),
            pre.nodes().len() as int,
            pre.ring_id(start),
            pre.ring_pos(start),
            pre.ring_of(start).len() as int,
            pre.ring_id(connector),
            pre.ring_pos(connector),
            pre.ring_of(connector).len() as int,
        )
        &&& post.clip_time() == pre.clip_time()
        &&& post.clock() == pre.clock()
        &&& post.emitted() == pre.emitted()
        &&& post.initial() == pre.initial()
    }

    /// Where the joined vertices and their neighbours sit before the join.
    proof fn lemma_join_facts(pre: PolygonRings, post: PolygonRings, start: int, connector: int)
        requires
            Self::join_step(pre, post, start, connector),
        ensures
            ({
                let hr = pre.ring_id(start);
                let hs = pre.ring_pos(start);
                let hole = pre.ring_of(start);
                let mh = hole.len() as int;
                let or = pre.ring_id(connector);
                let co = pre.ring_pos(connector);
                let outer = pre.ring_of(connector);
                let mo = outer.len() as int;
                let hn = ring_next(hs, mh);
                let h1 = pre.nodes()[start].right as int;
                let op = pre.nodes()[connector].left as int;
                let pc = ring_prev(co, mo);
                &&& 0 <= start < pre.nodes().len()
                &&& 0 <= connector < pre.nodes().len()
                &&& 0 <= hr < pre.rings().len()
                &&& 0 <= or < pre.rings().len()
                &&& 0 <= hs < mh
                &&& 0 <= co < mo
                &&& hole[hs] == start
                &&& outer[co] == connector
                &&& hole[hn] == h1
                &&& outer[pc] == op
                &&& pre.is_live(h1)
                &&& pre.is_live(op)
                &&& pre.loc()[h1] == (hr, hn)
                &&& pre.loc()[op] == (or, pc)
                &&& post.nodes().len() == pre.nodes().len() + 2
            }),
    {
        pre.lemma_live(start);
        pre.lemma_live(connector);
        let n = pre.nodes().len() as int;
        let hr = pre.ring_id(start);
        let hs = pre.ring_pos(start);
        let hole = pre.ring_of(start);
        let mh = hole.len() as int;
        let or = pre.ring_id(connector);
        let co = pre.ring_pos(connector);
        let outer = pre.ring_of(connector);
        let mo = outer.len() as int;
        let hn = ring_next(hs, mh);
        let h1 = pre.nodes()[start].right as int;
        let op = pre.nodes()[connector].left as int;
        let pc = ring_prev(co, mo);
        assert(hole[hn] == h1);
        assert(outer[pc] == op);
        assert(pre.loc()[h1] == (hr, hn));
        assert(pre.loc()[op] == (or, pc));
        let pn = pre.nodes();
        let qn = post.nodes();
        assert(qn.len() == n + 2);
    }

    /// The nodes after a join, one by one.
    proof fn lemma_join_nodes(pre: PolygonRings, post: PolygonRings, start: int, connector: int)
        requires
            Self::join_step(pre, post, start, connector),
        ensures
            ({
                let n = pre.nodes().len() as int;
                let pn = pre.nodes();
                let qn = post.nodes();
                let h1 = pn[start].right as int;
                let op = pn[connector].left as int;
                &&& qn.len() == n + 2
                &&& qn[n] == (RingVert { mesh_idx: pn[start].mesh_idx, left: (n + 1) as usize, right: h1 as usize })
                &&& qn[n + 1] == (RingVert { mesh_idx: pn[connector].mesh_idx, left: op as usize, right: n as usize })
                &&& qn[start].right == connector
                &&& qn[start].left == if h1 == start { n as usize } else { pn[start].left }
                &&& qn[connector].left == start
                &&& qn[connector].right == if op == connector { (n + 1) as usize } else { pn[connector].right }
                &&& h1 != start ==> qn[h1].left == n && qn[h1].right == pn[h1].right
                &&& op != connector ==> qn[op].right == n + 1 && qn[op].left == pn[op].left
                &&& forall|v: int| 0 <= v < n + 2 ==> (#[trigger] qn[v]).mesh_idx == (if v == n { pn[start].mesh_idx } else if v == n + 1 { pn[connector].mesh_idx } else { pn[v].mesh_idx })
                &&& forall|v: int|
                    0 <= v < n && v != start && v != connector && v != h1 && v != op ==> #[trigger] qn[v] == pn[v]
            }),
    {
        Self::lemma_join_facts(pre, post, start, connector);
        let n = pre.nodes().len() as int;
        let hr = pre.ring_id(start);
        let or = pre.ring_id(connector);
        let h1 = pre.nodes()[start].right as int;
        let op = pre.nodes()[connector].left as int;
        let pn = pre.nodes();
        let qn = post.nodes();
        assert(hr != or);
        assert(start != connector);
        assert(h1 != connector && h1 != op);
        assert(op != start);
        assert(0 <= h1 < n && 0 <= op < n);
        let s0 = pn.push(pn[start]).push(pn[connector]);
        let s1 = set_left(s0, h1, n as usize);
        let s2 = set_right(s1, op, (n + 1) as usize);
        let s3 = linked(s2, start, connector);
        assert(qn == linked(s3, n + 1, n));
        assert(s1[h1].left == n);
        assert(s2[h1].left == n);
        assert(s3[h1].left == n);
        assert(qn[h1].left == n);
        assert(s2[op].right == n + 1);
        assert(s3[op].right == n + 1);
        assert(qn[op].right == n + 1);
        assert forall|v: int| 0 <= v < n + 2 implies (#[trigger] qn[v]).mesh_idx == (if v == n {
            pn[start].mesh_idx
        } else if v == n + 1 {
            pn[connector].mesh_idx
        } else {
            pn[v].mesh_idx
        }) by {}
    }

    #[verifier::spinoff_prover]
    proof fn lemma_join_bounds(pre: PolygonRings, post: PolygonRings, start: int, connector: int)
        requires
            Self::join_step(pre, post, start, connector),
        ensures
            post.links_in_bounds(),
    {
        Self::lemma_join_facts(pre, post, start, connector);
        let n = pre.nodes().len() as int;
        let pn = pre.nodes();
        let qn = post.nodes();
        Self::lemma_join_nodes(pre, post, start, connector);
        assert forall|v: int| 0 <= v < qn.len() implies #[trigger] qn[v].left < qn.len() && qn[v].right < qn.len() by {
            if v < n {
                assert(pn[v].left < n && pn[v].right < n);
            }
        }
    }

    #[verifier::spinoff_prover]
    proof fn lemma_join_loc(pre: PolygonRings, post: PolygonRings, start: int, connector: int)
        requires
            Self::join_step(pre, post, start, connector),
        ensures
            post.loc_ok(),
    {
        Self::lemma_join_facts(pre, post, start, connector);
        let n = pre.nodes().len() as int;
        let hr = pre.ring_id(start);
        let hs = pre.ring_pos(start);
        let hole = pre.ring_of(start);
        let mh = hole.len() as int;
        let or = pre.ring_id(connector);
        let co = pre.ring_pos(connector);
        let outer = pre.ring_of(connector);
        let mo = outer.len() as int;
        let hn = ring_next(hs, mh);
        assert forall|v: int| #[trigger] post.loc().dom().contains(v) implies {
            let (r, i) = post.loc()[v];
            &&& 0 <= v < post.nodes().len()
            &&& 0 <= r < post.rings().len()
            &&& 0 <= i < post.rings()[r].len()
            &&& post.rings()[r][i] == v
        } by {
            let (r, i) = post.loc()[v];
            if v == n + 1 {
                lemma_joined_ring_index(hole, hs, outer, co, n, mo);
            } else if v == n {
                lemma_joined_ring_index(hole, hs, outer, co, n, mo + 1);
            } else {
                let (r0, q) = pre.loc()[v];
                assert(pre.rings()[r0][q] == v);
                if r0 == or {
                    lemma_joined_ring_index(hole, hs, outer, co, n, unrot_index(co, q, mo));
                } else if r0 == hr {
                    lemma_joined_ring_index(hole, hs, outer, co, n, mo + 2 + unrot_index(hn, q, mh));
                } else {
                    assert(post.rings()[r0] == pre.rings()[r0]);
                }
            }
        }
    }

    #[verifier::spinoff_prover]
    proof fn lemma_join_rings(pre: PolygonRings, post: PolygonRings, start: int, connector: int)
        requires
            Self::join_step(pre, post, start, connector),
        ensures
            post.rings_ok(),
    {
        Self::lemma_join_facts(pre, post, start, connector);
        let n = pre.nodes().len() as int;
        let hr = pre.ring_id(start);
        let hs = pre.ring_pos(start);
        let hole = pre.ring_of(start);
        let mh = hole.len() as int;
        let or = pre.ring_id(connector);
        let co = pre.ring_pos(connector);
        let outer = pre.ring_of(connector);
        let mo = outer.len() as int;
        let hn = ring_next(hs, mh);
        assert forall|r: int, i: int|
            0 <= r < post.rings().len() && 0 <= i < post.rings()[r].len() implies {
            let v = #[trigger] post.rings()[r][i];
            &&& post.loc().dom().contains(v)
            &&& post.loc()[v] == (r, i)
        } by {
            if r == hr {
            } else if r == or {
                lemma_joined_ring_index(hole, hs, outer, co, n, i);
                let v = post.rings()[r][i];
                if i < mo {
                    let q = rot_index(co, i, mo);
                    assert(pre.rings()[or][q] == v);
                    assert(pre.loc()[v] == (or, q));
                } else if i >= mo + 2 {
                    let q = rot_index(hn, i - mo - 2, mh);
                    assert(pre.rings()[hr][q] == v);
                    assert(pre.loc()[v] == (hr, q));
                }
            } else {
                assert(post.rings()[r] == pre.rings()[r]);
                let v = pre.rings()[r][i];
                assert(pre.loc()[v] == (r, i));
            }
        }
    }

    #[verifier::spinoff_prover]
    proof fn lemma_join_links(pre: PolygonRings, post: PolygonRings, start: int, connector: int)
        requires
            Self::join_step(pre, post, start, connector),
        ensures
            post.links_ok(),
    {
        Self::lemma_join_facts(pre, post, start, connector);
        let n = pre.nodes().len() as int;
        let hr = pre.ring_id(start);
        let hs = pre.ring_pos(start);
        let hole = pre.ring_of(start);
        let mh = hole.len() as int;
        let or = pre.ring_id(connector);
        let co = pre.ring_pos(connector);
        let outer = pre.ring_of(connector);
        let mo = outer.len() as int;
        let hn = ring_next(hs, mh);
        let h1 = pre.nodes()[start].right as int;
        let op = pre.nodes()[connector].left as int;
        let pc = ring_prev(co, mo);
        let pn = pre.nodes();
        let qn = post.nodes();
        Self::lemma_join_nodes(pre, post, start, connector);
        let jr = post.rings()[or];
        let ml = mo + mh + 2;
        lemma_joined_ring_index(hole, hs, outer, co, n, 0);
        assert(jr.len() == ml);
        assert forall|v: int| #[trigger] post.loc().dom().contains(v) implies {
            let (r, i) = post.loc()[v];
            let m = post.rings()[r].len() as int;
            &&& post.nodes()[v].right == post.rings()[r][ring_next(i, m)]
            &&& post.nodes()[v].left == post.rings()[r][ring_prev(i, m)]
        } by {
            let (r, i) = post.loc()[v];
            if v == n || v == n + 1 || pre.loc()[v].0 == or || pre.loc()[v].0 == hr {
                assert(r == or);
                assert(0 <= i < ml);
                lemma_joined_ring_index(hole, hs, outer, co, n, i);
                lemma_joined_ring_index(hole, hs, outer, co, n, ring_next(i, ml));
                lemma_joined_ring_index(hole, hs, outer, co, n, ring_prev(i, ml));
                if v != n && v != n + 1 {
                    let (r0, q) = pre.loc()[v];
                    pre.lemma_live(v);
                    assert(pre.rings()[r0][q] == v);
                    if r0 == or {
                        assert(pn[v].right == outer[ring_next(q, mo)]);
                        assert(pn[v].left == outer[ring_prev(q, mo)]);
                        if v == op && v != connector {
                            assert(q == pc) by {
                                if q != pc { pre.lemma_distinct(or, q, pc); }
                            }
                        }
                        if v != op {
                            assert(q != pc);
                        }
                        if v != connector {
                            assert(q != co);
                        }
                    } else {
                        assert(pn[v].right == hole[ring_next(q, mh)]);
                        assert(pn[v].left == hole[ring_prev(q, mh)]);
                        if v == h1 && v != start {
                            assert(q == hn) by {
                                if q != hn { pre.lemma_distinct(hr, q, hn); }
                            }
                        }
                        if v != h1 {
                            assert(q != hn);
                        }
                        if v != start {
                            assert(q != hs);
                        }
                    }
                }
            } else {
                pre.lemma_live(v);
                assert(post.rings()[r] == pre.rings()[r]);
                assert(v != start && v != connector && v != h1 && v != op);
                assert(qn[v] == pn[v]);
            }
        }
    }

    #[verifier::spinoff_prover]
    proof fn lemma_join_detached(pre: PolygonRings, post: PolygonRings, start: int, connector: int)
        requires
            Self::join_step(pre, post, start, connector),
        ensures
            post.clipped_ok(),
    {
        Self::lemma_join_facts(pre, post, start, connector);
        let h1 = pre.nodes()[start].right as int;
        let op = pre.nodes()[connector].left as int;
        let pn = pre.nodes();
        let qn = post.nodes();
        Self::lemma_join_nodes(pre, post, start, connector);
        assert forall|v: int| #[trigger] post.is_clipped(v) implies {
            let c = post.nodes()[v].right as int;
            &&& post.clip_time().dom().contains(v)
            &&& post.clip_time()[v] < post.clock()
            &&& post.nodes()[c].left != v
            &&& post.nodes()[v].left != v
            &&& (post.loc().dom().contains(c) || (post.clip_time().dom().contains(c)
                && post.clip_time()[c] > post.clip_time()[v]))
        } by {
            assert(pre.is_clipped(v));
            assert(v != start && v != connector && v != h1 && v != op);
            assert(qn[v] == pn[v]);
            let c = pn[v].right as int;
            assert(pn[c].left != v);
            if c != start && c != connector && c != h1 && c != op {
                assert(qn[c] == pn[c]);
            }
            if pre.loc().dom().contains(c) {
                assert(post.loc().dom().contains(c));
            }
        }
    }

    /// A key-hole keeps the edges balanced: the ring gains the edges from the
    /// start to the connector and back, and keeps the others, now carried
    /// partly by the duplicates.
    proof fn lemma_join_balanced(pre: PolygonRings, post: PolygonRings, start: int, connector: int)
        requires
            Self::join_step(pre, post, start, connector),
        ensures
            post.edges_balanced(),
    {
        assert forall|a: i32, b: i32| #[trigger] post.edge_surplus(a, b) == post.edge_surplus(b, a) by {
            Self::lemma_join_surplus(pre, post, start, connector, a, b);
            Self::lemma_join_surplus(pre, post, start, connector, b, a);
            assert(pre.edge_surplus(a, b) == pre.edge_surplus(b, a));
        }
    }

    /// How a key-hole changes the surplus of edges from `a` to `b`.
    #[verifier::spinoff_prover]
    proof fn lemma_join_surplus(
        pre: PolygonRings,
        post: PolygonRings,
        start: int,
        connector: int,
        a: i32,
        b: i32,
    )
        requires
            Self::join_step(pre, post, start, connector),
        ensures
            ({
                let ms = pre.nodes()[start].mesh_idx;
                let mc = pre.nodes()[connector].mesh_idx;
                post.edge_surplus(a, b) == pre.edge_surplus(a, b) + edge_is((ms, mc), a, b)
                    + edge_is((mc, ms), a, b)
            }),
    {
        Self::lemma_join_facts(pre, post, start, connector);
        Self::lemma_join_nodes(pre, post, start, connector);
        pre.lemma_live(start);
        pre.lemma_live(connector);
        let n = pre.nodes().len() as int;
        let pn = pre.nodes();
        let qn = post.nodes();
        let h1 = pn[start].right as int;
        let op = pn[connector].left as int;
        let ms = pn[start].mesh_idx;
        let mc = pn[connector].mesh_idx;
        let mh1 = pn[h1].mesh_idx;
        let f = pre.ring_edges(a, b);
        let g = post.ring_edges(a, b);
        assert(pn[op].right == connector);
        assert forall|x: int| 0 <= x < n && x != start implies #[trigger] f(x) == g(x) by {
            assert(post.is_live(x) == pre.is_live(x));
            assert(pn[x].right < n);
            if x == op {
                assert(qn[x].right == n + 1);
            } else if x == h1 {
            } else if x == connector {
            } else {
                assert(qn[x] == pn[x]);
            }
        }
        lemma_count_one_change(f, g, n, start);
        assert(f(start) == edge_is((ms, mh1), a, b));
        assert(post.is_live(start));
        assert(g(start) == edge_is((ms, mc), a, b));
        assert(post.is_live(n));
        assert(post.is_live(n + 1));
        assert(g(n) == edge_is((ms, mh1), a, b));
        assert(g(n + 1) == edge_is((mc, ms), a, b));
        assert(count_upto(g, n + 1) == count_upto(g, n) + g(n));
        assert(count_upto(g, n + 2) == count_upto(g, n + 1) + g(n + 1));
        lemma_count_agree(pre.input_edges(a, b), post.input_edges(a, b), pre.initial().len() as int);
    }

    /// Once every ring is down to at most two vertices, as ear clipping leaves
    /// them, the returned triangles have the edges of the polygons as given,
    /// in their directions, plus pairs of opposite edges: for every two mesh
    /// indices, the triangle edges from `a` to `b` outnumber the input edges
    /// from `a` to `b` exactly as much as those from `b` to `a` outnumber the
    /// input edges from `b` to `a`.
    pub proof fn lemma_finished_triangles(&self)
        requires
            self.wf(),
            forall|r: int| 0 <= r < self.rings().len() ==> #[trigger] self.rings()[r].len() <= 2,
        ensures
            forall|a: i32, b: i32|
                #[trigger] triangle_edge_count(self.emitted(), a, b) - self.input_edge_count(a, b)
                    == triangle_edge_count(self.emitted(), b, a) - self.input_edge_count(b, a),
    {
        let n = self.nodes().len() as int;
        let sigma = |v: int|
            if self.is_live(v) {
                self.nodes()[v].right as int
            } else {
                v
            };
        assert forall|v: int| 0 <= v < n && self.is_live(v) implies #[trigger] self.nodes()[
            self.nodes()[v].right as int].right == v by {
            self.lemma_live(v);
            let w = self.nodes()[v].right as int;
            let r = self.ring_id(v);
            let i = self.ring_pos(v);
            let m = self.ring_of(v).len() as int;
            assert(self.rings()[r].len() <= 2);
            self.lemma_live(w);
            assert(self.loc()[w] == (r, ring_next(i, m)));
        }
        assert forall|a: i32, b: i32| #[trigger] triangle_edge_count(self.emitted(), a, b)
            - self.input_edge_count(a, b) == triangle_edge_count(self.emitted(), b, a)
            - self.input_edge_count(b, a) by {
            let f = self.ring_edges(a, b);
            let g = self.ring_edges(b, a);
            assert forall|x: int| 0 <= x < n implies 0 <= #[trigger] sigma(x) < n && sigma(sigma(x))
                == x && g(x) == f(sigma(x)) by {
                if self.is_live(x) {
                    self.lemma_live(x);
                    let w = self.nodes()[x].right as int;
                    assert(self.nodes()[w].right == x);
                }
            }
            lemma_count_involution(f, g, n, sigma);
            assert(self.edge_surplus(a, b) == self.edge_surplus(b, a));
        }
    }

    ///Creates a keyhole between the start vert of a hole and the connector vert
    ///of an outer polygon. To do this, both verts are duplicated and reattached,
    ///so that the two rings become one. Returns the duplicates of `start` and of
    ///`connector`.
    pub fn join_polygons(&mut self, start: usize, connector: usize) -> (dups: (usize, usize))
        requires
            old(self).wf(),
            old(self).is_live(start as int),
            old(self).is_live(connector as int),
            old(self).ring_id(start as int) != old(self).ring_id(connector as int),
            old(self).nodes().len() + 2 <= usize::MAX,
        ensures
            final(self).wf(),
            dups.0 == old(self).nodes().len(),
            dups.1 == old(self).nodes().len() + 1,
            final(self).nodes() == joined_nodes(old(self).nodes(), start as int, connector as int),
            final(self).rings() == old(self).rings().update(
                old(self).ring_id(connector as int),
                joined_ring(
                    old(self).ring_of(start as int),
                    old(self).ring_pos(start as int),
                    old(self).ring_of(connector as int),
                    old(self).ring_pos(connector as int),
                    old(self).nodes().len() as int,
                ),
            ).update(old(self).ring_id(start as int), Seq::empty()),
            forall|v: int| #[trigger]
                final(self).is_live(v) == (old(self).is_live(v) || v == old(self).nodes().len()
                    || v == old(self).nodes().len() + 1),
            final(self).clock() == old(self).clock(),
            final(self).emitted() == old(self).emitted(),
            final(self).initial() == old(self).initial(),
    {
        let ghost pre = *self;
        proof {
            self.lemma_live(start as int);
            self.lemma_live(connector as int);
        }
        let n = self.verts.len();
        let start_node = self.verts[start];
        let connector_node = self.verts[connector];
        self.verts.push(start_node);
        self.verts.push(connector_node);
        let new_start = n;
        let new_connector = n + 1;
        let h1 = start_node.right;
        let op = connector_node.left;
        let mut after_start = self.verts[h1];
        after_start.left = new_start;
        self.verts.set(h1, after_start);
        let mut before_connector = self.verts[op];
        before_connector.right = new_connector;
        self.verts.set(op, before_connector);
        self.link(start, connector);
        self.link(new_connector, new_start);
        proof {
            let hr = pre.ring_id(start as int);
            let or = pre.ring_id(connector as int);
            self.rings@ = pre.rings().update(
                or,
                joined_ring(
                    pre.ring_of(start as int),
                    pre.ring_pos(start as int),
                    pre.ring_of(connector as int),
                    pre.ring_pos(connector as int),
                    n as int,
                ),
            ).update(hr, Seq::empty());
            self.loc@ = loc_after_join(
                pre.loc(),
                n as int,
                hr,
                pre.ring_pos(start as int),
                pre.ring_of(start as int).len() as int,
                or,
                pre.ring_pos(connector as int),
                pre.ring_of(connector as int).len() as int,
            );
            assert(self.nodes() =~= joined_nodes(pre.nodes(), start as int, connector as int));
            Self::lemma_join_bounds(pre, *self, start as int, connector as int);
            Self::lemma_join_loc(pre, *self, start as int, connector as int);
            Self::lemma_join_rings(pre, *self, start as int, connector as int);
            Self::lemma_join_links(pre, *self, start as int, connector as int);
            Self::lemma_join_detached(pre, *self, start as int, connector as int);
            Self::lemma_join_balanced(pre, *self, start as int, connector as int);
        }
        (new_start, new_connector)
    }

    /// The vertices of the ring of the live vertex `v`, in the order of their
    /// right links, starting at `v`.
    pub fn ring_members(&self, v: usize) -> (members: Vec<usize>)
        requires
            self.wf(),
            self.is_live(v as int),
        ensures
            members@.len() == self.ring_of(v as int).len(),
            forall|k: int|
                0 <= k < members@.len() ==> #[trigger] members@[k] == rotate(
                    self.ring_of(v as int),
                    self.ring_pos(v as int),
                )[k],
    {
        let ghost ring = self.ring_of(v as int);
        let ghost pv = self.ring_pos(v as int);
        let ghost m = ring.len() as int;
        proof {
            self.lemma_live(v as int);
        }
        let mut members: Vec<usize> = Vec::new();
        let mut u = v;
        loop
            invariant_except_break
                0 <= members.len() < m,
                u == rotate(ring, pv)[members.len() as int],
            invariant
                self.wf(),
                self.is_live(v as int),
                ring == self.ring_of(v as int),
                pv == self.ring_pos(v as int),
                m == ring.len() >= 1,
                0 <= pv < m,
                ring[pv] == v,
                members.len() <= m,
                forall|k: int|
                    0 <= k < members.len() ==> #[trigger] members@[k] == rotate(ring, pv)[k],
            ensures
                members.len() == m,
            decreases m - members.len(),
        {
            let ghost k = members.len() as int;
            proof {
                Self::lemma_rotate_index(ring, pv, k);
                let pu = if pv + k < m {
                    pv + k
                } else {
                    pv + k - m
                };
                assert(self.rings()[self.ring_id(v as int)][pu] == u);
                assert(self.loc()[u as int] == (self.ring_id(v as int), pu));
                self.lemma_live(u as int);
                if k + 1 < m {
                    Self::lemma_rotate_index(ring, pv, k + 1);
                }
                assert(self.nodes()[u as int].right == ring[ring_next(pu, m)]);
                if ring_next(pu, m) == pv {
                    assert(k + 1 == m) by {
                        if k + 1 < m {
                            let pn = if pv + k + 1 < m {
                                pv + k + 1
                            } else {
                                pv + k + 1 - m
                            };
                            assert(pn != pv);
                        }
                    }
                } else if k + 1 == m {
                    assert(ring_next(pu, m) == pv);
                } else {
                    assert(ring[ring_next(pu, m)] != v) by {
                        if ring[ring_next(pu, m)] == v {
                            self.lemma_distinct(self.ring_id(v as int), ring_next(pu, m), pv);
                        }
                    }
                }
            }
            members.push(u);
            u = self.verts[u].right;
            if u == v {
                break;
            }
        }
        members
    }

    /// Number of vertices.
    pub fn len(&self) -> (n: usize)
        ensures
            n == self.nodes().len(),
    {
        self.verts.len()
    }

    /// The vertex `v`.
    pub fn node(&self, v: usize) -> (node: RingVert)
        requires
            v < self.nodes().len(),
        ensures
            node == self.nodes()[v as int],
    {
        self.verts[v]
    }

    ///When an ear vert is clipped, its neighbors get linked, so they get unlinked
    ///from it, but it is still linked to them.
    pub fn clipped(&self, v: usize) -> (r: bool)
        requires
            self.wf(),
            v < self.nodes().len(),
        ensures
            r == !self.is_live(v as int),
    {
        proof {
            if self.is_live(v as int) {
                self.lemma_live(v as int);
            } else {
                assert(self.is_clipped(v as int));
            }
        }
        let right = self.verts[v].right;
        self.verts[right].left != v
    }

    /// Whether the ring of the live vertex `v` has shrunk to two vertices or
    /// fewer, so that its left and right neighbours are the same.
    pub fn is_degenerate(&self, v: usize) -> (r: bool)
        requires
            self.wf(),
            self.is_live(v as int),
        ensures
            r == (self.ring_of(v as int).len() <= 2),
    {
        proof {
            self.lemma_live(v as int);
            let r = self.ring_id(v as int);
            let i = self.ring_pos(v as int);
            let m = self.ring_of(v as int).len() as int;
            if m >= 3 {
                if self.nodes()[v as int].left == self.nodes()[v as int].right {
                    self.lemma_distinct(r, ring_next(i, m), ring_prev(i, m));
                }
            }
        }
        self.verts[v].left == self.verts[v].right
    }
}

/// The clipping of the ears of one ring, one at a time, until two vertices are
/// left: a ring of `m` vertices gives `m - 2` clips. Which vertices belong to
/// the ring is kept in a flag per vertex, so that a chosen ear can be checked
/// in constant time.
pub struct EarClipping {
    in_ring: Vec<bool>,
    remaining: usize,
    current: usize,
    ring: Ghost<int>,
}

impl EarClipping {
    /// Whether each vertex belongs to the ring.
    pub closed spec fn marks(&self) -> Seq<bool> {
        self.in_ring@
    }

    /// Number of clips still to make.
    pub closed spec fn remaining_clips(&self) -> int {
        self.remaining as int
    }

    /// The vertex clipped when no ear is chosen: the right neighbour of the
    /// last one clipped, at first the vertex the clipping started from.
    pub closed spec fn backup(&self) -> int {
        self.current as int
    }

    /// The ring being clipped.
    pub closed spec fn ring_index(&self) -> int {
        self.ring@
    }

    /// The clipping state agrees with the rings: the flags mark the live
    /// vertices of the ring, the backup vertex is one of them, and the ring
    /// has two vertices more than there are clips left.
    pub open spec fn inv(&self, rings: &PolygonRings) -> bool {
        &&& rings.wf()
        &&& self.marks().len() == rings.nodes().len()
        &&& forall|v: int|
            0 <= v < self.marks().len() ==> (#[trigger] self.marks()[v] <==> (rings.is_live(v)
                && rings.ring_id(v) == self.ring_index()))
        &&& rings.is_live(self.backup())
        &&& rings.ring_id(self.backup()) == self.ring_index()
        &&& rings.ring_of(self.backup()).len() == self.remaining_clips() + 2
    }

    /// Starts clipping the ring of the live vertex `start`, whose ring has two
    /// vertices or more; `marks` is a cleared flag per vertex.
    pub fn new(rings: &PolygonRings, start: usize, marks: Vec<bool>) -> (res: EarClipping)
        requires
            rings.wf(),
            rings.is_live(start as int),
            rings.ring_of(start as int).len() >= 2,
            marks@.len() == rings.nodes().len(),
            forall|v: int| 0 <= v < marks@.len() ==> !(#[trigger] marks@[v]),
        ensures
            res.inv(rings),
            res.remaining_clips() == rings.ring_of(start as int).len() - 2,
            res.backup() == start,
            res.ring_index() == rings.ring_id(start as int),
    {
        let ghost rid = rings.ring_id(start as int);
        let ghost ring = rings.ring_of(start as int);
        let ghost ps = rings.ring_pos(start as int);
        proof {
            rings.lemma_live(start as int);
        }
        let members = rings.ring_members(start);
        let mut in_ring = marks;
        let mut k: usize = 0;
        while k < members.len()
            invariant
                rings.wf(),
                rings.is_live(start as int),
                rid == rings.ring_id(start as int),
                ring == rings.ring_of(start as int),
                ps == rings.ring_pos(start as int),
                0 <= ps < ring.len(),
                members@.len() == ring.len(),
                forall|j: int|
                    0 <= j < members@.len() ==> #[trigger] members@[j] == rotate(ring, ps)[j],
                k <= members.len(),
                in_ring@.len() == rings.nodes().len(),
                forall|v: int|
                    0 <= v < in_ring@.len() ==> (#[trigger] in_ring@[v] <==> exists|j: int|
                        0 <= j < k && members@[j] == v),
            decreases members.len() - k,
        {
            proof {
                Self::lemma_rotate_member(rings, start as int, k as int);
            }
            let ghost before = in_ring@;
            in_ring.set(members[k], true);
            proof {
                assert forall|v: int| 0 <= v < in_ring@.len() implies (#[trigger] in_ring@[v]
                    <==> exists|j: int| 0 <= j < k + 1 && members@[j] == v) by {
                    if v == members@[k as int] {
                        assert(members@[k as int] == v);
                    } else {
                        assert(in_ring@[v] == before[v]);
                        if exists|j: int| 0 <= j < k + 1 && members@[j] == v {
                            let j = choose|j: int| 0 <= j < k + 1 && members@[j] == v;
                            assert(j < k);
                        }
                    }
                }
            }
            k = k + 1;
        }
        proof {
            assert forall|v: int| 0 <= v < in_ring@.len() implies (#[trigger] in_ring@[v] <==> (
            rings.is_live(v) && rings.ring_id(v) == rid)) by {
                if in_ring@[v] {
                    let j = choose|j: int| 0 <= j < k && members@[j] == v;
                    Self::lemma_rotate_member(rings, start as int, j);
                }
                if rings.is_live(v) && rings.ring_id(v) == rid {
                    let q = rings.ring_pos(v);
                    let j = unrot_index(ps, q, ring.len() as int);
                    PolygonRings::lemma_rotate_index(ring, ps, j);
                    assert(rings.rings()[rid][q] == v);
                    assert(members@[j] == v);
                }
            }
        }
        EarClipping { in_ring, remaining: members.len() - 2, current: start, ring: Ghost(rid) }
    }

    /// Member `k` of the rotated ring of `start` is a live vertex of that ring.
    proof fn lemma_rotate_member(rings: &PolygonRings, start: int, k: int)
        requires
            rings.wf(),
            rings.is_live(start),
            0 <= k < rings.ring_of(start).len(),
        ensures
            ({
                let v = rotate(rings.ring_of(start), rings.ring_pos(start))[k];
                &&& 0 <= v < rings.nodes().len()
                &&& rings.is_live(v)
                &&& rings.ring_id(v) == rings.ring_id(start)
            }),
    {
        rings.lemma_live(start);
        let ring = rings.ring_of(start);
        let ps = rings.ring_pos(start);
        let m = ring.len() as int;
        PolygonRings::lemma_rotate_index(ring, ps, k);
        let q = rot_index(ps, k, m);
        assert(rings.rings()[rings.ring_id(start)][q] == rotate(ring, ps)[k]);
    }

    /// Number of clips still to make.
    pub fn remaining(&self) -> (n: usize)
        ensures
            n == self.remaining_clips(),
    {
        self.remaining
    }

    /// The vertex clipped when no ear is chosen.
    pub fn current(&self) -> (v: usize)
        ensures
            v == self.backup(),
    {
        self.current
    }

    /// Whether vertex `v` is a live vertex of the ring being clipped.
    pub fn holds(&self, v: usize) -> (b: bool)
        requires
            v < self.marks().len(),
        ensures
            b == self.marks()[v as int],
    {
        self.in_ring[v]
    }

    /// Clips `ear`, a live vertex of the ring, or the backup vertex when no
    /// ear is given. Returns the clipped vertex and its triangle, as
    /// `clip_ear` does; the right neighbour of the clipped vertex becomes the
    /// backup. When no clip is left, the ring has two vertices, whose left and
    /// right neighbours coincide.
    pub fn clip(&mut self, rings: &mut PolygonRings, ear: Option<usize>) -> (res: (usize, Option<[i32; 3]>))
        requires
            old(self).inv(old(rings)),
            old(self).remaining_clips() > 0,
            ear matches Some(e) ==> e < old(self).marks().len() && old(self).marks()[e as int],
        ensures
            final(self).inv(final(rings)),
            res.0 == match ear {
                Some(e) => e as int,
                None => old(self).backup(),
            },
            final(self).remaining_clips() == old(self).remaining_clips() - 1,
            final(self).ring_index() == old(self).ring_index(),
            final(self).backup() == old(rings).nodes()[res.0 as int].right,
            final(rings).nodes() == linked(
                old(rings).nodes(),
                old(rings).nodes()[res.0 as int].left as int,
                old(rings).nodes()[res.0 as int].right as int,
            ),
            final(rings).rings() == old(rings).rings().update(
                old(rings).ring_id(res.0 as int),
                old(rings).ring_of(res.0 as int).remove(old(rings).ring_pos(res.0 as int)),
            ),
            forall|v: int| #[trigger]
                final(rings).is_live(v) == (old(rings).is_live(v) && v != res.0),
            final(rings).emitted() == old(rings).emitted() + triangles_of(res.1),
            final(rings).initial() == old(rings).initial(),
            ({
                let nodes = old(rings).nodes();
                let ml = nodes[nodes[res.0 as int].left as int].mesh_idx;
                let me = nodes[res.0 as int].mesh_idx;
                let mr = nodes[nodes[res.0 as int].right as int].mesh_idx;
                res.1 == if ml != me && me != mr && mr != ml {
                    Some([ml, me, mr])
                } else {
                    None::<[i32; 3]>
                }
            }),
            final(self).remaining_clips() == 0 ==> final(rings).ring_of(final(self).backup()).len()
                == 2,
    {
        let v = match ear {
            Some(e) => e,
            None => self.current,
        };
        let ghost pre = *rings;
        proof {
            pre.lemma_live(v as int);
            assert(pre.ring_id(v as int) == self.ring@);
        }
        let tri = rings.clip_ear(v);
        let right = rings.node(v).right;
        proof {
            assert(right == pre.nodes()[v as int].right);
            assert(right != v) by {
                if right == v {
                    let rid = pre.ring_id(v as int);
                    let p = pre.ring_pos(v as int);
                    let m = pre.ring_of(v as int).len() as int;
                    pre.lemma_distinct(rid, ring_next(p, m), p);
                }
            }
            assert(rings.is_live(right as int));
            assert(rings.loc()[right as int] == rings.loc()[right as int]);
            assert(rings.ring_id(right as int) == pre.ring_id(right as int));
            assert(rings.loc()[pre.nodes()[v as int].left as int] == rings.loc()[pre.nodes()[
                v as int].left as int]);
        }
        self.in_ring.set(v, false);
        self.remaining = self.remaining - 1;
        self.current = right;
        proof {
            let rid = self.ring@;
            assert forall|w: int| 0 <= w < self.in_ring@.len() implies (#[trigger] self.in_ring@[w]
                <==> (rings.is_live(w) && rings.ring_id(w) == rid)) by {
                if w != v && rings.is_live(w) {
                    assert(rings.loc()[w] == rings.loc()[w]);
                }
            }
            let l = pre.nodes()[v as int].left as int;
            assert(rings.ring_of(right as int) == rings.ring_of(l));
        }
        (v, tri)
    }

    /// Ends the clipping and returns the flags, all cleared again.
    pub fn finish(self, rings: &PolygonRings) -> (marks: Vec<bool>)
        requires
            self.inv(rings),
        ensures
            marks@.len() == rings.nodes().len(),
            forall|v: int| 0 <= v < marks@.len() ==> !(#[trigger] marks@[v]),
    {
        let members = rings.ring_members(self.current);
        let mut in_ring = self.in_ring;
        let ghost start = self.current as int;
        let ghost rid = self.ring@;
        let mut k: usize = 0;
        while k < members.len()
            invariant
                rings.wf(),
                rings.is_live(start),
                rings.ring_id(start) == rid,
                members@.len() == rings.ring_of(start).len(),
                forall|j: int|
                    0 <= j < members@.len() ==> #[trigger] members@[j] == rotate(
                        rings.ring_of(start),
                        rings.ring_pos(start),
                    )[j],
                k <= members.len(),
                in_ring@.len() == rings.nodes().len(),
                forall|v: int|
                    0 <= v < in_ring@.len() ==> (#[trigger] in_ring@[v] ==> (rings.is_live(v)
                        && rings.ring_id(v) == rid && forall|j: int|
                        0 <= j < k ==> members@[j] != v)),
            decreases members.len() - k,
        {
            proof {
                Self::lemma_rotate_member(rings, start, k as int);
            }
            let ghost before = in_ring@;
            in_ring.set(members[k], false);
            proof {
                assert forall|v: int| 0 <= v < in_ring@.len() implies (#[trigger] in_ring@[v] ==> (
                rings.is_live(v) && rings.ring_id(v) == rid && forall|j: int|
                    0 <= j < k + 1 ==> members@[j] != v)) by {
                    if in_ring@[v] {
                        assert(before[v]);
                    }
                }
            }
            k = k + 1;
        }
        proof {
            rings.lemma_live(start);
            let ring = rings.ring_of(start);
            let ps = rings.ring_pos(start);
            assert forall|v: int| 0 <= v < in_ring@.len() implies !(#[trigger] in_ring@[v]) by {
                if in_ring@[v] {
                    let q = rings.ring_pos(v);
                    let j = unrot_index(ps, q, ring.len() as int);
                    PolygonRings::lemma_rotate_index(ring, ps, j);
                    assert(rings.rings()[rid][q] == v);
                    assert(members@[j] == v);
                }
            }
        }
        in_ring
    }
}

} // verus!
