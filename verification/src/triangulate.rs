//! Index-level triangulations: the fan used for cross sections and the
//! alternating strip used for convex polygons.
use vstd::prelude::*;

verus! {

/// Polygon vertex: a position of any coordinate type and the index of the
/// vertex it stands for in another vertex vector.
pub struct PolyVert<P> {
    /// X-Y position
    pub pos: P,
    /// ID or index into another vertex vector
    pub idx: i32,
}

/// Number of triangles that a fan or strip over `n` points produces.
pub open spec fn strip_len(n: int) -> int {
    if n < 3 {
        0
    } else {
        n - 2
    }
}

///Triangulate a polygon using simple fan triangulation
pub fn triangulate_polygon<P>(points: &[P]) -> (triangles: Vec<[usize; 3]>)
    ensures
        triangles.len() == strip_len(points@.len() as int),
        forall|i: int|
            #![trigger triangles@[i]]
            0 <= i < triangles.len() ==> triangles@[i][0] == 0 && triangles@[i][1] == i + 1
                && triangles@[i][2] == i + 2,
{
    let n = points.len();
    let mut triangles: Vec<[usize; 3]> = Vec::new();
    if n < 3 {
        return triangles;
    }
    // Simple fan triangulation - connect first vertex to all other consecutive pairs
    let mut i: usize = 1;
    while i < n - 1
        invariant
            3 <= n == points@.len(),
            1 <= i <= n - 1,
            triangles.len() == i - 1,
            forall|t: int|
                #![trigger triangles@[t]]
                0 <= t < triangles.len() ==> triangles@[t][0] == 0 && triangles@[t][1] == t + 1
                    && triangles@[t][2] == t + 2,
        decreases n - i,
    {
        triangles.push([0, i, i + 1]);
        i = i + 1;
    }
    triangles
}

/// Positions `(i, j, k)` of the triangles that the alternating strip cuts
/// from the vertex range `i..=k`; `right` says which end moves next.
pub open spec fn zigzag(i: int, k: int, right: bool) -> Seq<(int, int, int)>
    decreases k - i,
{
    if i + 1 < k {
        let j = if right {
            i + 1
        } else {
            k - 1
        };
        seq![(i, j, k)] + if right {
            zigzag(j, k, false)
        } else {
            zigzag(i, j, true)
        }
    } else {
        Seq::empty()
    }
}

/// The mesh indices of the triangle at positions `t` of `poly`.
pub open spec fn tri_of<P>(poly: Seq<PolyVert<P>>, t: (int, int, int)) -> [i32; 3] {
    [poly[t.0].idx, poly[t.1].idx, poly[t.2].idx]
}

/// The strip triangles of one polygon, as mesh indices.
pub open spec fn poly_strip<P>(poly: Seq<PolyVert<P>>) -> Seq<[i32; 3]> {
    zigzag(0, poly.len() - 1, true).map_values(|t: (int, int, int)| tri_of(poly, t))
}

/// The strip triangles of all polygons, one polygon after the other.
pub open spec fn convex_strips<P>(polys: Seq<Vec<PolyVert<P>>>) -> Seq<[i32; 3]>
    decreases polys.len(),
{
    if polys.len() == 0 {
        Seq::empty()
    } else {
        convex_strips(polys.drop_last()) + poly_strip(polys.last()@)
    }
}

/// The strips of a list of polygons are those of each polygon, in order: the
/// strips of two lists one after the other are the strips of the first list
/// followed by those of the second, and a single polygon gives its own strip.
pub proof fn lemma_convex_strips_append<P>(a: Seq<Vec<PolyVert<P>>>, b: Seq<Vec<PolyVert<P>>>)
    ensures
        convex_strips(a + b) == convex_strips(a) + convex_strips(b),
        b.len() == 1 ==> convex_strips(b) == poly_strip(b[0]@),
    decreases b.len(),
{
    if b.len() == 0 {
        assert(a + b =~= a);
        assert(convex_strips(a) + convex_strips(b) =~= convex_strips(a));
    } else {
        lemma_convex_strips_append(a, b.drop_last());
        assert((a + b).drop_last() =~= a + b.drop_last());
        assert((a + b).last() == b.last());
        assert(convex_strips(a + b) =~= convex_strips(a) + convex_strips(b));
        if b.len() == 1 {
            assert(b.drop_last() =~= Seq::<Vec<PolyVert<P>>>::empty());
            assert(convex_strips(b) =~= poly_strip(b[0]@));
        }
    }
}

/// The value that the triangle count estimate reaches after the first
/// polygons: the sum of their lengths, each minus two.
pub open spec fn running_estimate<P>(polys: Seq<Vec<PolyVert<P>>>) -> int
    decreases polys.len(),
{
    if polys.len() == 0 {
        0
    } else {
        running_estimate(polys.drop_last()) + polys.last().len() - 2
    }
}

/// The inputs on which the strip triangulation is defined: every polygon has
/// a vertex, and the running estimate of the triangle count never drops below
/// zero nor overflows.
pub open spec fn convex_input_ok<P>(polys: Seq<Vec<PolyVert<P>>>) -> bool {
    forall|k: int|
        0 <= k < polys.len() ==> {
            &&& #[trigger] polys[k].len() >= 1
            &&& 2 <= running_estimate(polys.take(k)) + polys[k].len() <= usize::MAX
        }
}

/// Number of triangles of the strip over `n` points, and each of them has
/// increasing positions inside the range: the strip keeps the polygon's
/// winding.
pub proof fn lemma_zigzag(i: int, k: int, right: bool)
    requires
        i <= k,
    ensures
        zigzag(i, k, right).len() == if i + 1 < k {
            k - i - 1
        } else {
            0
        },
        forall|q: int|
            0 <= q < zigzag(i, k, right).len() ==> {
                let t = #[trigger] zigzag(i, k, right)[q];
                i <= t.0 < t.1 < t.2 <= k
            },
    decreases k - i,
{
    if i + 1 < k {
        let j = if right {
            i + 1
        } else {
            k - 1
        };
        if right {
            lemma_zigzag(j, k, false);
        } else {
            lemma_zigzag(i, j, true);
        }
        let rest = if right {
            zigzag(j, k, false)
        } else {
            zigzag(i, j, true)
        };
        assert(zigzag(i, k, right) == seq![(i, j, k)] + rest);
        assert forall|q: int| 0 <= q < zigzag(i, k, right).len() implies {
            let t = #[trigger] zigzag(i, k, right)[q];
            i <= t.0 < t.1 < t.2 <= k
        } by {
            if q > 0 {
                assert(zigzag(i, k, right)[q] == rest[q - 1]);
            }
        }
    }
}

/// The strip in closed form: after `q` steps from the range `i..=k`, the range
/// left runs from `i` plus the steps that moved the low end to `k` less the
/// steps that moved the high end; the ends move in turn, starting with the
/// low end when `right`. Step `q` cuts off the vertex next to the end it
/// moves: the triangle of the low end, its successor and the high end, or of
/// the low end, the predecessor of the high end and the high end.
pub proof fn lemma_zigzag_steps(i: int, k: int, right: bool)
    ensures
        zigzag(i, k, right).len() == if i + 1 < k {
            k - i - 1
        } else {
            0
        },
        forall|q: int|
            0 <= q < zigzag(i, k, right).len() ==> {
                let lo = i + if right {
                    (q + 1) / 2
                } else {
                    q / 2
                };
                let hi = k - if right {
                    q / 2
                } else {
                    (q + 1) / 2
                };
                #[trigger] zigzag(i, k, right)[q] == if (q % 2 == 0) == right {
                    (lo, lo + 1, hi)
                } else {
                    (lo, hi - 1, hi)
                }
            },
    decreases k - i,
{
    if i + 1 < k {
        let j = if right {
            i + 1
        } else {
            k - 1
        };
        let rest = if right {
            zigzag(j, k, false)
        } else {
            zigzag(i, j, true)
        };
        if right {
            lemma_zigzag_steps(j, k, false);
        } else {
            lemma_zigzag_steps(i, j, true);
        }
        assert(zigzag(i, k, right) == seq![(i, j, k)] + rest);
        assert forall|q: int| 0 <= q < zigzag(i, k, right).len() implies {
            let lo = i + if right {
                (q + 1) / 2
            } else {
                q / 2
            };
            let hi = k - if right {
                q / 2
            } else {
                (q + 1) / 2
            };
            #[trigger] zigzag(i, k, right)[q] == if (q % 2 == 0) == right {
                (lo, lo + 1, hi)
            } else {
                (lo, hi - 1, hi)
            }
        } by {
            if q > 0 {
                assert(zigzag(i, k, right)[q] == rest[q - 1]);
            }
        }
    }
}

/// The strip of a polygon of `n` vertices, triangle by triangle: triangle
/// `q` joins vertex `(q + 1) / 2`, the low end of what is left, and vertex
/// `n - 1 - q / 2`, the high end, with the successor of the low end on even
/// steps and the predecessor of the high end on odd steps; so the steps
/// alternate, each cutting one vertex off the polygon left.
pub proof fn lemma_poly_strip_steps<P>(poly: Seq<PolyVert<P>>)
    requires
        poly.len() >= 1,
    ensures
        poly_strip(poly).len() == strip_len(poly.len() as int),
        forall|q: int|
            0 <= q < poly_strip(poly).len() ==> {
                let lo = (q + 1) / 2;
                let hi = poly.len() - 1 - q / 2;
                #[trigger] poly_strip(poly)[q] == if q % 2 == 0 {
                    [poly[lo].idx, poly[lo + 1].idx, poly[hi].idx]
                } else {
                    [poly[lo].idx, poly[hi - 1].idx, poly[hi].idx]
                }
            },
{
    lemma_zigzag_steps(0, poly.len() - 1, true);
    assert forall|q: int| 0 <= q < poly_strip(poly).len() implies {
        let lo = (q + 1) / 2;
        let hi = poly.len() - 1 - q / 2;
        #[trigger] poly_strip(poly)[q] == if q % 2 == 0 {
            [poly[lo].idx, poly[lo + 1].idx, poly[hi].idx]
        } else {
            [poly[lo].idx, poly[hi - 1].idx, poly[hi].idx]
        }
    } by {
        assert(poly_strip(poly)[q] == tri_of(poly, zigzag(0, poly.len() - 1, true)[q]));
    }
}

/// A convex polygon of `n` vertices is cut into exactly `n - 2` triangles, and
/// every triangle takes its corners in the polygon's own order, so it keeps
/// the input winding.
pub proof fn lemma_poly_strip_shape<P>(poly: Seq<PolyVert<P>>)
    requires
        poly.len() >= 1,
    ensures
        poly_strip(poly).len() == strip_len(poly.len() as int),
        forall|q: int|
            0 <= q < poly_strip(poly).len() ==> {
                let t = #[trigger] zigzag(0, poly.len() - 1, true)[q];
                &&& 0 <= t.0 < t.1 < t.2 < poly.len()
                &&& poly_strip(poly)[q] == tri_of(poly, t)
            },
{
    lemma_zigzag(0, poly.len() - 1, true);
}

/// Triangles of one polygon, appended to `triangles`.
fn push_strip<P>(poly: &Vec<PolyVert<P>>, triangles: &mut Vec<[i32; 3]>)
    requires
        poly.len() >= 1,
    ensures
        final(triangles)@ == old(triangles)@ + poly_strip(poly@),
{
    let ghost start = triangles@;
    let mut i: usize = 0;
    let mut k: usize = poly.len() - 1;
    let mut right = true;
    proof {
        lemma_zigzag(0, poly.len() - 1, true);
    }
    while i + 1 < k
        invariant
            i <= k < poly.len(),
            triangles@ + zigzag(i as int, k as int, right).map_values(
                |t: (int, int, int)| tri_of(poly@, t),
            ) == start + poly_strip(poly@),
        decreases k - i,
    {
        let j = if right {
            i + 1
        } else {
            k - 1
        };
        let ghost rest = if right {
            zigzag(j as int, k as int, false)
        } else {
            zigzag(i as int, j as int, true)
        };
        let ghost f = |t: (int, int, int)| tri_of(poly@, t);
        assert(zigzag(i as int, k as int, right) == seq![(i as int, j as int, k as int)] + rest);
        assert(zigzag(i as int, k as int, right).map_values(f) =~= seq![
            tri_of(poly@, (i as int, j as int, k as int)),
        ] + rest.map_values(f));
        triangles.push([poly[i].idx, poly[j].idx, poly[k].idx]);
        if right {
            i = j;
        } else {
            k = j;
        }
        right = !right;
        assert(triangles@ + rest.map_values(f) =~= start + poly_strip(poly@));
    }
    assert(zigzag(i as int, k as int, right) =~= Seq::<(int, int, int)>::empty());
    assert(triangles@ =~= start + poly_strip(poly@));
}

///Triangulates a set of convex polygons by alternating instead of a fan, to
///avoid creating high-degree vertices.
pub fn triangulate_convex<P>(polys: &Vec<Vec<PolyVert<P>>>) -> (triangles: Vec<[i32; 3]>)
    requires
        convex_input_ok(polys@),
    ensures
        triangles@ == convex_strips(polys@),
{
    let mut triangles: Vec<[i32; 3]> = Vec::new();
    let mut p: usize = 0;
    while p < polys.len()
        invariant
            p <= polys.len(),
            convex_input_ok(polys@),
            triangles@ == convex_strips(polys@.take(p as int)),
        decreases polys.len() - p,
    {
        assert(polys@[p as int].len() >= 1);
        push_strip(&polys[p], &mut triangles);
        assert(polys@.take(p + 1).drop_last() =~= polys@.take(p as int));
        p = p + 1;
    }
    assert(polys@.take(polys.len() as int) =~= polys@);
    triangles
}

} // verus!
