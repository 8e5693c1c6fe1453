//! Vertex and index buffer layouts: interleaved vertex properties (position,
//! then normal, then texture coordinate) and the separate per-attribute
//! arrays that renderers use. The scalar type is left open.
use vstd::prelude::*;

verus! {

/// A per-vertex attribute of a render mesh: absent, present in the expected
/// format, or present in another format.
pub enum VertexAttribute<A> {
    /// The mesh has no such attribute.
    Missing,
    /// The attribute, one value per vertex.
    Values(Vec<A>),
    /// The attribute is stored in a format other than the expected one.
    OtherFormat,
}

/// The index buffer of a render mesh.
pub enum IndexBuffer {
    /// 16-bit indices.
    U16(Vec<u16>),
    /// 32-bit indices.
    U32(Vec<u32>),
}

impl<A> VertexAttribute<A> {
    /// The mesh has the attribute, in whatever format.
    pub open spec fn present(&self) -> bool {
        !(self is Missing)
    }
}

/// Number of interleaved properties of a vertex with the given attributes:
/// three for the position, three for a normal, two for a texture coordinate.
pub open spec fn props_per_vertex(has_normals: bool, has_uvs: bool) -> int {
    3 + (if has_normals {
        3int
    } else {
        0
    }) + (if has_uvs {
        2int
    } else {
        0
    })
}

/// The properties that are written for vertex `i`: its position, its normal
/// (or the default normal where the normals are missing for it but the layout
/// has room for them), its texture coordinate likewise.
pub open spec fn vertex_record<T>(
    positions: Seq<[T; 3]>,
    normals: VertexAttribute<[T; 3]>,
    uvs: VertexAttribute<[T; 2]>,
    default_normal: [T; 3],
    default_uv: [T; 2],
    i: int,
) -> Seq<T> {
    let num_prop = props_per_vertex(normals.present(), uvs.present());
    let p = positions[i];
    let n = match normals {
        VertexAttribute::Values(ns) => if i < ns.len() {
            ns@[i]
        } else {
            default_normal
        },
        _ => default_normal,
    };
    let u = match uvs {
        VertexAttribute::Values(us) => if i < us.len() {
            us@[i]
        } else {
            default_uv
        },
        _ => default_uv,
    };
    let with_normal = normals is Values || num_prop >= 6;
    let with_uv = uvs is Values || num_prop >= 8;
    seq![p[0], p[1], p[2]] + (if with_normal {
        seq![n[0], n[1], n[2]]
    } else {
        Seq::empty()
    }) + (if with_uv {
        seq![u[0], u[1]]
    } else {
        Seq::empty()
    })
}

/// The interleaved properties of the first `k` vertices.
pub open spec fn interleaved<T>(
    positions: Seq<[T; 3]>,
    normals: VertexAttribute<[T; 3]>,
    uvs: VertexAttribute<[T; 2]>,
    default_normal: [T; 3],
    default_uv: [T; 2],
    k: int,
) -> Seq<T>
    decreases k,
{
    if k <= 0 {
        Seq::empty()
    } else {
        interleaved(positions, normals, uvs, default_normal, default_uv, k - 1) + vertex_record(
            positions,
            normals,
            uvs,
            default_normal,
            default_uv,
            k - 1,
        )
    }
}

/// Number of properties written per vertex.
pub open spec fn record_len<T>(normals: VertexAttribute<[T; 3]>, uvs: VertexAttribute<[T; 2]>) -> int {
    let num_prop = props_per_vertex(normals.present(), uvs.present());
    3 + (if normals is Values || num_prop >= 6 {
        3int
    } else {
        0
    }) + (if uvs is Values || num_prop >= 8 {
        2int
    } else {
        0
    })
}

/// The first `k` records take `k` times the record length, and property `j`
/// of vertex `i` sits at `i` times the record length plus `j`.
pub proof fn lemma_interleaved_index<T>(
    positions: Seq<[T; 3]>,
    normals: VertexAttribute<[T; 3]>,
    uvs: VertexAttribute<[T; 2]>,
    default_normal: [T; 3],
    default_uv: [T; 2],
    k: int,
)
    requires
        k >= 0,
    ensures
        interleaved(positions, normals, uvs, default_normal, default_uv, k).len() == k * record_len(
            normals,
            uvs,
        ),
        forall|i: int, j: int|
            0 <= i < k && 0 <= j < record_len(normals, uvs) ==> #[trigger] interleaved(
                positions,
                normals,
                uvs,
                default_normal,
                default_uv,
                k,
            )[i * record_len(normals, uvs) + j] == vertex_record(
                positions,
                normals,
                uvs,
                default_normal,
                default_uv,
                i,
            )[j],
    decreases k,
{
    let r = record_len(normals, uvs);
    if k > 0 {
        lemma_interleaved_index(positions, normals, uvs, default_normal, default_uv, k - 1);
        let prev = interleaved(positions, normals, uvs, default_normal, default_uv, k - 1);
        let rec = vertex_record(positions, normals, uvs, default_normal, default_uv, k - 1);
        let all = interleaved(positions, normals, uvs, default_normal, default_uv, k);
        assert(rec.len() == r);
        assert(all == prev + rec);
        assert((k - 1) * r + r == k * r) by (nonlinear_arith);
        assert forall|i: int, j: int| 0 <= i < k && 0 <= j < r implies #[trigger] all[i * r + j]
            == vertex_record(positions, normals, uvs, default_normal, default_uv, i)[j] by {
            if i < k - 1 {
                assert(i * r + j < (k - 1) * r) by (nonlinear_arith)
                    requires
                        0 <= i < k - 1,
                        0 <= j < r,
                ;
                assert(all[i * r + j] == prev[i * r + j]);
            } else {
                assert(all[i * r + j] == rec[j]);
            }
        }
    }
}

/// The layout that interleaving writes, for every combination of attributes:
/// `num_prop` properties per vertex as `props_per_vertex` announces, the
/// position first, then the normal where the mesh has normals, then the
/// texture coordinate where it has them, each replaced by its default where
/// it is missing for the vertex or stored in another format. The one
/// exception is a mesh without normals whose texture coordinates are in
/// another format: five properties are announced, but only the position of
/// each vertex is written.
pub proof fn lemma_interleaved_layout<T>(
    positions: Seq<[T; 3]>,
    normals: VertexAttribute<[T; 3]>,
    uvs: VertexAttribute<[T; 2]>,
    default_normal: [T; 3],
    default_uv: [T; 2],
)
    ensures
        ({
            let n = positions.len() as int;
            let np = props_per_vertex(normals.present(), uvs.present());
            let props = interleaved(positions, normals, uvs, default_normal, default_uv, n);
            let writes_all = !(normals is Missing && uvs is OtherFormat);
            let stride = if writes_all {
                np
            } else {
                3
            };
            &&& writes_all ==> props.len() == np * n
            &&& !writes_all ==> np == 5 && props.len() == 3 * n
            &&& forall|i: int|
                #![trigger positions[i]]
                0 <= i < n ==> [
                    prop_at(props, stride, i, 0),
                    prop_at(props, stride, i, 1),
                    prop_at(props, stride, i, 2),
                ] == positions[i]
            &&& normals.present() ==> forall|i: int|
                #![trigger positions[i]]
                0 <= i < n ==> [
                    prop_at(props, np, i, 3),
                    prop_at(props, np, i, 4),
                    prop_at(props, np, i, 5),
                ] == match normals {
                    VertexAttribute::Values(ns) => if i < ns@.len() {
                        ns@[i]
                    } else {
                        default_normal
                    },
                    _ => default_normal,
                }
            &&& writes_all && uvs.present() ==> forall|i: int|
                #![trigger positions[i]]
                0 <= i < n ==> [prop_at(props, np, i, np - 2), prop_at(props, np, i, np - 1)]
                    == match uvs {
                    VertexAttribute::Values(us) => if i < us@.len() {
                        us@[i]
                    } else {
                        default_uv
                    },
                    _ => default_uv,
                }
        }),
{
    let n = positions.len() as int;
    let np = props_per_vertex(normals.present(), uvs.present());
    let props = interleaved(positions, normals, uvs, default_normal, default_uv, n);
    let writes_all = !(normals is Missing && uvs is OtherFormat);
    let stride = if writes_all {
        np
    } else {
        3
    };
    lemma_interleaved_index(positions, normals, uvs, default_normal, default_uv, n);
    let r = record_len(normals, uvs);
    assert(r == stride);
    assert forall|i: int| #![trigger positions[i]] 0 <= i < n implies {
        &&& [prop_at(props, stride, i, 0), prop_at(props, stride, i, 1), prop_at(props, stride, i, 2)]
            == positions[i]
        &&& normals.present() ==> [
            prop_at(props, np, i, 3),
            prop_at(props, np, i, 4),
            prop_at(props, np, i, 5),
        ] == match normals {
            VertexAttribute::Values(ns) => if i < ns@.len() {
                ns@[i]
            } else {
                default_normal
            },
            _ => default_normal,
        }
        &&& writes_all && uvs.present() ==> [prop_at(props, np, i, np - 2), prop_at(props, np, i, np - 1)]
            == match uvs {
            VertexAttribute::Values(us) => if i < us@.len() {
                us@[i]
            } else {
                default_uv
            },
            _ => default_uv,
        }
    } by {
        let rec = vertex_record(positions, normals, uvs, default_normal, default_uv, i);
        assert forall|j: int| 0 <= j < r implies props[i * r + j] == rec[j] by {
            assert(props[i * r + j] == rec[j]);
        }
        let p = positions[i];
        assert([p[0], p[1], p[2]] == p);
        assert(props[i * r + 0] == rec[0]);
        assert(props[i * r + 1] == rec[1]);
        assert(props[i * r + 2] == rec[2]);
        if r >= 6 {
            assert(props[i * r + 3] == rec[3]);
            assert(props[i * r + 4] == rec[4]);
            assert(props[i * r + 5] == rec[5]);
        }
        if r == 5 || r == 8 {
            assert(props[i * r + (r - 2)] == rec[r - 2]);
            assert(props[i * r + (r - 1)] == rec[r - 1]);
        }
        let nn = match normals {
            VertexAttribute::Values(ns) => if i < ns@.len() {
                ns@[i]
            } else {
                default_normal
            },
            _ => default_normal,
        };
        let uu = match uvs {
            VertexAttribute::Values(us) => if i < us@.len() {
                us@[i]
            } else {
                default_uv
            },
            _ => default_uv,
        };
        assert([nn[0], nn[1], nn[2]] == nn);
        assert([uu[0], uu[1]] == uu);
    }
}

/// Splitting what interleaving wrote gives back the positions, normals and
/// texture coordinates, when every vertex has its normal and its coordinate.
pub proof fn lemma_split_undoes_interleave<T>(
    positions: Seq<[T; 3]>,
    normals: Vec<[T; 3]>,
    uvs: Vec<[T; 2]>,
    default_normal: [T; 3],
    default_uv: [T; 2],
)
    requires
        normals@.len() == positions.len(),
        uvs@.len() == positions.len(),
    ensures
        ({
            let props = interleaved(
                positions,
                VertexAttribute::Values(normals),
                VertexAttribute::Values(uvs),
                default_normal,
                default_uv,
                positions.len() as int,
            );
            let n = positions.len() as int;
            &&& props_per_vertex(true, true) == 8
            &&& props.len() == 8 * n
            &&& props.len() / 8 == n
            &&& forall|i: int|
                #![trigger positions[i]]
                0 <= i < n ==> [prop_at(props, 8, i, 0), prop_at(props, 8, i, 1), prop_at(props, 8, i, 2)]
                    == positions[i] && [
                    prop_at(props, 8, i, 3),
                    prop_at(props, 8, i, 4),
                    prop_at(props, 8, i, 5),
                ] == normals@[i] && [prop_at(props, 8, i, 6), prop_at(props, 8, i, 7)] == uvs@[i]
        }),
{
    let nv = VertexAttribute::Values(normals);
    let uv = VertexAttribute::Values(uvs);
    let n = positions.len() as int;
    lemma_interleaved_index(positions, nv, uv, default_normal, default_uv, n);
    let props = interleaved(positions, nv, uv, default_normal, default_uv, n);
    assert(record_len(nv, uv) == 8);
    assert((8 * n) / 8 == n);
    assert forall|i: int| #![trigger positions[i]] 0 <= i < n implies [
        prop_at(props, 8, i, 0),
        prop_at(props, 8, i, 1),
        prop_at(props, 8, i, 2),
    ] == positions[i] && [prop_at(props, 8, i, 3), prop_at(props, 8, i, 4), prop_at(props, 8, i, 5)]
        == normals@[i] && [prop_at(props, 8, i, 6), prop_at(props, 8, i, 7)] == uvs@[i] by {
        let rec = vertex_record(positions, nv, uv, default_normal, default_uv, i);
        assert(rec == seq![positions[i][0], positions[i][1], positions[i][2]] + seq![
            normals@[i][0],
            normals@[i][1],
            normals@[i][2],
        ] + seq![uvs@[i][0], uvs@[i][1]]);
        assert forall|j: int| 0 <= j < 8 implies props[i * 8 + j] == rec[j] by {
            assert(props[i * record_len(nv, uv) + j] == rec[j]);
        }
        assert(props[i * 8 + 0] == rec[0]);
        assert(props[i * 8 + 1] == rec[1]);
        assert(props[i * 8 + 2] == rec[2]);
        assert(props[i * 8 + 3] == rec[3]);
        assert(props[i * 8 + 4] == rec[4]);
        assert(props[i * 8 + 5] == rec[5]);
        assert(props[i * 8 + 6] == rec[6]);
        assert(props[i * 8 + 7] == rec[7]);
        assert([positions[i][0], positions[i][1], positions[i][2]] == positions[i]);
        assert([normals@[i][0], normals@[i][1], normals@[i][2]] == normals@[i]);
        assert([uvs@[i][0], uvs@[i][1]] == uvs@[i]);
    }
}

/// Interleaving what `split_vertex_properties` reads out of a layout of six
/// or eight properties per vertex (texture coordinates only with eight)
/// rebuilds the property array, and announces the same number of properties
/// per vertex.
pub proof fn lemma_interleave_undoes_split<T>(
    props: Seq<T>,
    num_prop: int,
    positions: Vec<[T; 3]>,
    normals: Vec<[T; 3]>,
    uvs: Vec<[T; 2]>,
    default_normal: [T; 3],
    default_uv: [T; 2],
)
    requires
        num_prop == 6 || num_prop == 8,
        (props.len() as int) % num_prop == 0,
        positions@.len() == props.len() as int / num_prop,
        normals@.len() == props.len() as int / num_prop,
        uvs@.len() == if num_prop == 8 {
            props.len() as int / num_prop
        } else {
            0
        },
        forall|i: int|
            #![trigger positions@[i]]
            0 <= i < positions@.len() ==> positions@[i] == [
                prop_at(props, num_prop, i, 0),
                prop_at(props, num_prop, i, 1),
                prop_at(props, num_prop, i, 2),
            ],
        forall|i: int|
            #![trigger normals@[i]]
            0 <= i < normals@.len() ==> normals@[i] == [
                prop_at(props, num_prop, i, 3),
                prop_at(props, num_prop, i, 4),
                prop_at(props, num_prop, i, 5),
            ],
        forall|i: int|
            #![trigger uvs@[i]]
            0 <= i < uvs@.len() ==> uvs@[i] == [prop_at(props, num_prop, i, 6), prop_at(props, num_prop, i, 7)],
    ensures
        props_per_vertex(true, num_prop == 8) == num_prop,
        interleaved(
            positions@,
            VertexAttribute::Values(normals),
            if num_prop == 8 {
                VertexAttribute::Values(uvs)
            } else {
                VertexAttribute::Missing
            },
            default_normal,
            default_uv,
            positions@.len() as int,
        ) == props,
{
    let np = num_prop;
    let len = props.len() as int;
    let nv = len / np;
    let nattr = VertexAttribute::Values(normals);
    let uattr: VertexAttribute<[T; 2]> = if np == 8 {
        VertexAttribute::Values(uvs)
    } else {
        VertexAttribute::Missing
    };
    lemma_interleaved_index(positions@, nattr, uattr, default_normal, default_uv, nv);
    assert(record_len(nattr, uattr) == np);
    let out = interleaved(positions@, nattr, uattr, default_normal, default_uv, nv);
    vstd::arithmetic::div_mod::lemma_fundamental_div_mod(len, np);
    assert(nv * np == len) by (nonlinear_arith)
        requires
            len == np * nv + 0,
    ;
    assert forall|x: int| 0 <= x < props.len() implies out[x] == props[x] by {
        let i = x / np;
        let j = x % np;
        vstd::arithmetic::div_mod::lemma_fundamental_div_mod(x, np);
        assert(0 <= j < np);
        assert(x == i * np + j && 0 <= i < nv) by (nonlinear_arith)
            requires
                x == np * i + j,
                0 <= j < np,
                0 <= x < nv * np,
                np > 0,
        ;
        let rec = vertex_record(positions@, nattr, uattr, default_normal, default_uv, i);
        assert(out[i * np + j] == rec[j]);
        let p = positions@[i];
        let n = normals@[i];
        if np == 8 {
            let u = uvs@[i];
            assert(rec =~= seq![p[0], p[1], p[2]] + seq![n[0], n[1], n[2]] + seq![u[0], u[1]]);
        } else {
            assert(rec =~= seq![p[0], p[1], p[2]] + seq![n[0], n[1], n[2]] + Seq::empty());
        }
        if j == 0 {
        } else if j == 1 {
        } else if j == 2 {
        } else if j == 3 {
        } else if j == 4 {
        } else if j == 5 {
        } else if j == 6 {
            let u = uvs@[i];
        } else {
            let u = uvs@[i];
        }
    }
    assert(out =~= props);
}

/// The indices of an index buffer, widened to 32 bits.
pub open spec fn index_values(indices: IndexBuffer) -> Seq<u32> {
    match indices {
        IndexBuffer::U16(v) => v@.map_values(|i: u16| i as u32),
        IndexBuffer::U32(v) => v@,
    }
}

/// Widens 16-bit indices to 32 bits.
pub fn widen_indices(indices: &Vec<u16>) -> (wide: Vec<u32>)
    ensures
        wide@ == indices@.map_values(|i: u16| i as u32),
{
    let mut wide: Vec<u32> = Vec::new();
    let mut i: usize = 0;
    while i < indices.len()
        invariant
            i <= indices.len(),
            wide@ == indices@.take(i as int).map_values(|i: u16| i as u32),
        decreases indices.len() - i,
    {
        wide.push(indices[i] as u32);
        i = i + 1;
        assert(wide@ =~= indices@.take(i as int).map_values(|i: u16| i as u32));
    }
    assert(indices@.take(indices.len() as int) =~= indices@);
    wide
}

/// The 32-bit values of an index buffer are its indices unchanged and in
/// order: a 32-bit buffer as it is, a 16-bit one widened index by index. So a
/// mesh gives the same indices whichever width its buffer has.
pub proof fn lemma_index_values_unchanged(indices: IndexBuffer)
    ensures
        match indices {
            IndexBuffer::U16(v) => index_values(indices).len() == v@.len() && forall|i: int|
                0 <= i < v@.len() ==> #[trigger] index_values(indices)[i] == v@[i] as u32,
            IndexBuffer::U32(v) => index_values(indices).len() == v@.len() && forall|i: int|
                0 <= i < v@.len() ==> #[trigger] index_values(indices)[i] == v@[i],
        },
        forall|v16: Vec<u16>, v32: Vec<u32>|
            v16@.len() == v32@.len() && (forall|i: int|
                0 <= i < v16@.len() ==> #[trigger] v16@[i] as u32 == v32@[i]) ==> #[trigger] index_values(
                IndexBuffer::U16(v16),
            ) == #[trigger] index_values(IndexBuffer::U32(v32)),
{
    assert forall|v16: Vec<u16>, v32: Vec<u32>|
        v16@.len() == v32@.len() && (forall|i: int|
            0 <= i < v16@.len() ==> #[trigger] v16@[i] as u32 == v32@[i]) implies #[trigger] index_values(
        IndexBuffer::U16(v16),
    ) == #[trigger] index_values(IndexBuffer::U32(v32)) by {
        assert(index_values(IndexBuffer::U16(v16)) =~= index_values(IndexBuffer::U32(v32)));
    }
}

/// The indices of an index buffer as 32-bit values.
pub fn index_buffer_values(indices: &IndexBuffer) -> (values: Vec<u32>)
    ensures
        values@ == index_values(*indices),
        match *indices {
            IndexBuffer::U16(v) => values@.len() == v@.len() && forall|i: int|
                0 <= i < v@.len() ==> #[trigger] values@[i] == v@[i] as u32,
            IndexBuffer::U32(v) => values@.len() == v@.len() && forall|i: int|
                0 <= i < v@.len() ==> #[trigger] values@[i] == v@[i],
        },
{
    proof {
        lemma_index_values_unchanged(*indices);
    }
    match indices {
        IndexBuffer::U16(v) => widen_indices(v),
        IndexBuffer::U32(v) => v.clone(),
    }
}

/// Interleaves the attributes of a render mesh into one property array, one
/// record per position. Returns the number of properties per vertex that the
/// layout announces and the properties. Normals and texture coordinates that
/// are missing for a vertex are replaced by the defaults.
pub fn interleave_attributes<T: Copy>(
    positions: &Vec<[T; 3]>,
    normals: &VertexAttribute<[T; 3]>,
    uvs: &VertexAttribute<[T; 2]>,
    default_normal: [T; 3],
    default_uv: [T; 2],
) -> (res: (u32, Vec<T>))
    ensures
        res.0 == props_per_vertex(normals.present(), uvs.present()),
        res.1@ == interleaved(
            positions@,
            *normals,
            *uvs,
            default_normal,
            default_uv,
            positions@.len() as int,
        ),
        !(*normals is Missing && *uvs is OtherFormat) ==> res.1@.len() == res.0 as int
            * positions@.len(),
        forall|i: int|
            #![trigger positions@[i]]
            0 <= i < positions@.len() && !(*normals is Missing && *uvs is OtherFormat) ==> [
                prop_at(res.1@, res.0 as int, i, 0),
                prop_at(res.1@, res.0 as int, i, 1),
                prop_at(res.1@, res.0 as int, i, 2),
            ] == positions@[i],
        *uvs matches VertexAttribute::Values(us) ==> forall|i: int|
            #![trigger us@[i]]
            0 <= i < positions@.len() && i < us@.len() ==> [
                prop_at(res.1@, res.0 as int, i, res.0 - 2),
                prop_at(res.1@, res.0 as int, i, res.0 - 1),
            ] == us@[i],
{
    let has_normals = match normals {
        VertexAttribute::Missing => false,
        _ => true,
    };
    let has_uvs = match uvs {
        VertexAttribute::Missing => false,
        _ => true,
    };
    let num_prop: u32 = 3 + if has_normals {
        3
    } else {
        0
    } + if has_uvs {
        2
    } else {
        0
    };
    let mut props: Vec<T> = Vec::new();
    let mut i: usize = 0;
    while i < positions.len()
        invariant
            i <= positions.len(),
            num_prop == props_per_vertex(normals.present(), uvs.present()),
            has_normals == normals.present(),
            has_uvs == uvs.present(),
            props@ == interleaved(positions@, *normals, *uvs, default_normal, default_uv, i as int),
        decreases positions.len() - i,
    {
        let ghost before = props@;
        let pos = positions[i];
        props.push(pos[0]);
        props.push(pos[1]);
        props.push(pos[2]);
        let ghost with_pos = props@;
        match normals {
            VertexAttribute::Values(ns) => {
                let n = if i < ns.len() {
                    ns[i]
                } else {
                    default_normal
                };
                props.push(n[0]);
                props.push(n[1]);
                props.push(n[2]);
            },
            _ => {
                if num_prop >= 6 {
                    props.push(default_normal[0]);
                    props.push(default_normal[1]);
                    props.push(default_normal[2]);
                }
            },
        }
        let ghost with_normal = props@;
        match uvs {
            VertexAttribute::Values(us) => {
                let u = if i < us.len() {
                    us[i]
                } else {
                    default_uv
                };
                props.push(u[0]);
                props.push(u[1]);
            },
            _ => {
                if num_prop >= 8 {
                    props.push(default_uv[0]);
                    props.push(default_uv[1]);
                }
            },
        }
        proof {
            let rec = vertex_record(positions@, *normals, *uvs, default_normal, default_uv, i as int);
            assert(props@ =~= before + rec);
        }
        i = i + 1;
    }
    proof {
        lemma_interleaved_layout(positions@, *normals, *uvs, default_normal, default_uv);
        if let VertexAttribute::Values(us) = uvs {
            let np = props_per_vertex(normals.present(), uvs.present());
            assert forall|i: int| #![trigger us@[i]] 0 <= i < positions@.len() && i < us@.len() implies [
                prop_at(props@, np, i, np - 2),
                prop_at(props@, np, i, np - 1),
            ] == us@[i] by {
                assert(positions@[i] == positions@[i]);
            }
        }
    }
    (num_prop, props)
}

/// Property `k` of vertex `i` in a layout of `num_prop` properties per vertex.
pub open spec fn prop_at<T>(props: Seq<T>, num_prop: int, i: int, k: int) -> T {
    props[i * num_prop + k]
}

/// The layout reads only inside the property array: with fewer than three
/// properties per vertex, the position of the last vertex would run past it.
pub open spec fn split_reads_ok(len: int, num_prop: int) -> bool {
    &&& num_prop > 0
    &&& (num_prop >= 3 || len / num_prop == 0 || (len / num_prop - 1) * num_prop + 2 < len)
}

/// Offset of property `k` of vertex `i` in a layout of `num_prop` properties
/// per vertex.
pub open spec fn layout_offset(num_prop: int, i: int, k: int) -> int {
    i * num_prop + k
}

/// A layout can be read exactly when it has properties and the position of
/// every whole vertex lies inside the array; so every layout of three or more
/// properties per vertex can be read.
pub proof fn lemma_split_reads_in_bounds(len: int, num_prop: int)
    requires
        len >= 0,
    ensures
        split_reads_ok(len, num_prop) == (num_prop > 0 && forall|i: int|
            0 <= i < len / num_prop ==> #[trigger] layout_offset(num_prop, i, 2) < len),
        num_prop >= 3 ==> split_reads_ok(len, num_prop),
{
    if num_prop > 0 {
        let nv = len / num_prop;
        assert(nv * num_prop <= len) by (nonlinear_arith)
            requires
                nv == len / num_prop,
                num_prop > 0,
                len >= 0,
        ;
        assert forall|i: int| 0 <= i < nv && split_reads_ok(len, num_prop) implies #[trigger] layout_offset(
            num_prop,
            i,
            2,
        ) < len by {
            assert(i * num_prop + num_prop <= nv * num_prop) by (nonlinear_arith)
                requires
                    0 <= i < nv,
                    num_prop > 0,
            ;
            assert(i * num_prop <= (nv - 1) * num_prop) by (nonlinear_arith)
                requires
                    0 <= i < nv,
                    num_prop > 0,
            ;
        }
        if nv > 0 {
            assert(layout_offset(num_prop, nv - 1, 2) == (nv - 1) * num_prop + 2);
        }
    }
}

/// Whether `split_vertex_properties` can read the layout of `len` properties,
/// `num_prop` per vertex.
pub fn can_split_properties(len: usize, num_prop: usize) -> (ok: bool)
    ensures
        ok == split_reads_ok(len as int, num_prop as int),
        ok == (num_prop > 0 && forall|i: int|
            0 <= i < len / num_prop ==> #[trigger] layout_offset(num_prop as int, i, 2) < len),
        num_prop >= 3 ==> ok,
{
    proof {
        lemma_split_reads_in_bounds(len as int, num_prop as int);
    }
    if num_prop == 0 {
        return false;
    }
    if num_prop >= 3 {
        return true;
    }
    let nv = len / num_prop;
    if nv == 0 {
        return true;
    }
    proof {
        let l = len as int;
        let np = num_prop as int;
        let n = nv as int;
        assert((n - 1) * np <= n * np <= l) by (nonlinear_arith)
            requires
                n == l / np,
                np > 0,
                n >= 1,
                l >= 0,
        ;
    }
    let base = (nv - 1) * num_prop;
    len - base > 2
}

/// Splits interleaved vertex properties into positions (the first three
/// properties of each vertex), normals (the next three where there are at
/// least six properties, else the default normal) and texture coordinates
/// (the next two, only where there are at least eight properties).
pub fn split_vertex_properties<T: Copy>(props: &Vec<T>, num_prop: usize, default_normal: [T; 3]) -> (res: (
    Vec<[T; 3]>,
    Vec<[T; 3]>,
    Vec<[T; 2]>,
))
    requires
        split_reads_ok(props@.len() as int, num_prop as int),
    ensures
        ({
            let nv = props@.len() as int / num_prop as int;
            let np = num_prop as int;
            &&& res.0@.len() == nv
            &&& res.1@.len() == nv
            &&& res.2@.len() == if np >= 8 {
                nv
            } else {
                0
            }
            &&& forall|i: int|
                #![trigger res.0@[i]]
                0 <= i < nv ==> res.0@[i] == [
                    prop_at(props@, np, i, 0),
                    prop_at(props@, np, i, 1),
                    prop_at(props@, np, i, 2),
                ]
            &&& forall|i: int|
                #![trigger res.1@[i]]
                0 <= i < nv ==> res.1@[i] == if np >= 6 {
                    [prop_at(props@, np, i, 3), prop_at(props@, np, i, 4), prop_at(props@, np, i, 5)]
                } else {
                    default_normal
                }
            &&& forall|i: int|
                #![trigger res.2@[i]]
                0 <= i < res.2@.len() ==> res.2@[i] == [
                    prop_at(props@, np, i, 6),
                    prop_at(props@, np, i, 7),
                ]
        }),
{
    let num_verts = props.len() / num_prop;
    let ghost nv = num_verts as int;
    let ghost np = num_prop as int;
    let ghost len = props@.len() as int;
    proof {
        assert(nv * np <= len) by (nonlinear_arith)
            requires
                nv == len / np,
                np > 0,
                len >= 0,
        ;
    }
    let mut positions: Vec<[T; 3]> = Vec::new();
    let mut normals: Vec<[T; 3]> = Vec::new();
    let mut uvs: Vec<[T; 2]> = Vec::new();
    let mut i: usize = 0;
    while i < num_verts
        invariant
            split_reads_ok(len, np),
            len == props@.len(),
            len <= usize::MAX,
            np == num_prop,
            nv == num_verts,
            nv == len / np,
            nv * np <= len,
            i <= num_verts,
            positions@.len() == i,
            normals@.len() == i,
            uvs@.len() == if np >= 8 {
                i as int
            } else {
                0
            },
            forall|t: int|
                #![trigger positions@[t]]
                0 <= t < i ==> positions@[t] == [
                    prop_at(props@, np, t, 0),
                    prop_at(props@, np, t, 1),
                    prop_at(props@, np, t, 2),
                ],
            forall|t: int|
                #![trigger normals@[t]]
                0 <= t < i ==> normals@[t] == if np >= 6 {
                    [prop_at(props@, np, t, 3), prop_at(props@, np, t, 4), prop_at(props@, np, t, 5)]
                } else {
                    default_normal
                },
            forall|t: int|
                #![trigger uvs@[t]]
                0 <= t < uvs@.len() ==> uvs@[t] == [
                    prop_at(props@, np, t, 6),
                    prop_at(props@, np, t, 7),
                ],
        decreases num_verts - i,
    {
        let ghost ii = i as int;
        proof {
            assert(ii * np + np <= nv * np) by (nonlinear_arith)
                requires
                    0 <= ii < nv,
                    np > 0,
            ;
            if np < 3 {
                assert(ii * np <= (nv - 1) * np) by (nonlinear_arith)
                    requires
                        0 <= ii < nv,
                        np > 0,
                ;
            }
        }
        let offset = i * num_prop;
        positions.push([props[offset], props[offset + 1], props[offset + 2]]);
        // Extract normals if available (typically after position data)
        if num_prop >= 6 {
            normals.push([props[offset + 3], props[offset + 4], props[offset + 5]]);
        } else {
            normals.push(default_normal);
        }
        // Extract UVs if available (typically after normals)
        if num_prop >= 8 {
            uvs.push([props[offset + 6], props[offset + 7]]);
        }
        i = i + 1;
    }
    (positions, normals, uvs)
}

/// Splits the vertex array of a solid into positions, and normals where each
/// vertex has six values rather than three.
pub fn split_positions_normals<T: Copy>(vertices: &Vec<T>, num_props: usize) -> (res: (
    Vec<[T; 3]>,
    Option<Vec<[T; 3]>>,
))
    requires
        num_props == 3 || num_props == 6,
        (vertices@.len() as int) % (num_props as int) == 0,
    ensures
        ({
            let np = num_props as int;
            let nv = vertices@.len() as int / np;
            &&& res.0@.len() == nv
            &&& forall|i: int|
                #![trigger res.0@[i]]
                0 <= i < nv ==> res.0@[i] == [
                    prop_at(vertices@, np, i, 0),
                    prop_at(vertices@, np, i, 1),
                    prop_at(vertices@, np, i, 2),
                ]
            &&& (res.1 is Some <==> np == 6)
            &&& res.1 matches Some(normals) ==> {
                &&& normals@.len() == nv
                &&& forall|i: int|
                    #![trigger normals@[i]]
                    0 <= i < nv ==> normals@[i] == [
                        prop_at(vertices@, np, i, 3),
                        prop_at(vertices@, np, i, 4),
                        prop_at(vertices@, np, i, 5),
                    ]
            }
        }),
{
    let num_verts = vertices.len() / num_props;
    let ghost nv = num_verts as int;
    let ghost np = num_props as int;
    let ghost len = vertices@.len() as int;
    proof {
        assert(nv * np == len) by (nonlinear_arith)
            requires
                nv == len / np,
                len % np == 0,
                np > 0,
                len >= 0,
        ;
    }
    let mut positions: Vec<[T; 3]> = Vec::new();
    let mut normals: Vec<[T; 3]> = Vec::new();
    let mut i: usize = 0;
    while i < num_verts
        invariant
            np == num_props,
            np == 3 || np == 6,
            len == vertices@.len(),
            len <= usize::MAX,
            nv == num_verts,
            nv * np == len,
            i <= num_verts,
            positions@.len() == i,
            normals@.len() == if np == 6 {
                i as int
            } else {
                0
            },
            forall|t: int|
                #![trigger positions@[t]]
                0 <= t < i ==> positions@[t] == [
                    prop_at(vertices@, np, t, 0),
                    prop_at(vertices@, np, t, 1),
                    prop_at(vertices@, np, t, 2),
                ],
            forall|t: int|
                #![trigger normals@[t]]
                0 <= t < normals@.len() ==> normals@[t] == [
                    prop_at(vertices@, np, t, 3),
                    prop_at(vertices@, np, t, 4),
                    prop_at(vertices@, np, t, 5),
                ],
        decreases num_verts - i,
    {
        let ghost ii = i as int;
        proof {
            assert(ii * np + np <= nv * np) by (nonlinear_arith)
                requires
                    0 <= ii < nv,
                    np > 0,
            ;
        }
        let offset = i * num_props;
        positions.push([vertices[offset], vertices[offset + 1], vertices[offset + 2]]);
        if num_props == 6 {
            normals.push([vertices[offset + 3], vertices[offset + 4], vertices[offset + 5]]);
        }
        i = i + 1;
    }
    if num_props == 6 {
        (positions, Some(normals))
    } else {
        (positions, None)
    }
}

/// The coordinates of the positions, one after the other.
pub fn flatten_positions<T: Copy>(positions: &Vec<[T; 3]>) -> (flat: Vec<T>)
    ensures
        flat@.len() == 3 * positions@.len(),
        forall|i: int, k: int|
            0 <= i < positions@.len() && 0 <= k < 3 ==> flat@[3 * i + k] == #[trigger] positions@[i][k],
{
    let mut flat: Vec<T> = Vec::new();
    let mut i: usize = 0;
    while i < positions.len()
        invariant
            i <= positions.len(),
            flat@.len() == 3 * i,
            forall|t: int, k: int|
                0 <= t < i && 0 <= k < 3 ==> flat@[3 * t + k] == #[trigger] positions@[t][k],
        decreases positions.len() - i,
    {
        let p = positions[i];
        flat.push(p[0]);
        flat.push(p[1]);
        flat.push(p[2]);
        i = i + 1;
    }
    flat
}

/// The indices `0, 1, ...` up to the vertex count taken modulo 2^32, for a
/// vertex list drawn without an index buffer.
pub fn sequential_indices(count: usize) -> (indices: Vec<u32>)
    ensures
        indices@.len() == (count as u32) as int,
        forall|i: int| 0 <= i < indices@.len() ==> #[trigger] indices@[i] == i,
{
    #[verifier::truncate]
    let n = count as u32;
    let mut indices: Vec<u32> = Vec::new();
    let mut i: u32 = 0;
    while i < n
        invariant
            i <= n,
            n == count as u32,
            indices@.len() == i,
            forall|t: int| 0 <= t < i ==> #[trigger] indices@[t] == t,
        decreases n - i,
    {
        indices.push(i);
        i = i + 1;
    }
    indices
}

/// The position and index arrays that a solid is built from, taken from a
/// render mesh: `None` unless the positions are present in the expected
/// format. Without an index buffer, the vertices are taken in order.
pub fn solid_buffers<T: Copy>(positions: &VertexAttribute<[T; 3]>, indices: &Option<IndexBuffer>) -> (res:
    Option<(Vec<T>, Vec<u32>)>)
    ensures
        match *positions {
            VertexAttribute::Values(pos) => res matches Some((flat, idx)) && flat@.len() == 3
                * pos@.len() && (forall|i: int, k: int|
                0 <= i < pos@.len() && 0 <= k < 3 ==> flat@[3 * i + k] == #[trigger] pos@[i][k])
                && idx@ == match *indices {
                Some(buf) => index_values(buf),
                None => Seq::new((pos@.len() as u32) as nat, |i: int| i as u32),
            },
            _ => res is None,
        },
{
    match positions {
        VertexAttribute::Values(pos) => {
            let idx = match indices {
                Some(buf) => index_buffer_values(buf),
                None => {
                    let seq_idx = sequential_indices(pos.len());
                    proof {
                        assert(seq_idx@ =~= Seq::new(
                            (pos@.len() as u32) as nat,
                            |i: int| i as u32,
                        ));
                    }
                    seq_idx
                },
            };
            let flat = flatten_positions(pos);
            Some((flat, idx))
        },
        _ => None,
    }
}

/// The layout of a render mesh as interleaved properties and 32-bit indices:
/// `None` unless the positions are present in the expected format and the
/// mesh has an index buffer. Returns the number of properties per vertex, the
/// properties and the indices.
pub fn interleaved_mesh<T: Copy>(
    positions: &VertexAttribute<[T; 3]>,
    normals: &VertexAttribute<[T; 3]>,
    uvs: &VertexAttribute<[T; 2]>,
    indices: &Option<IndexBuffer>,
    default_normal: [T; 3],
    default_uv: [T; 2],
) -> (res: Option<(u32, Vec<T>, Vec<u32>)>)
    ensures
        match (*positions, *indices) {
            (VertexAttribute::Values(pos), Some(buf)) => res matches Some((np, props, idx)) && np
                == props_per_vertex(normals.present(), uvs.present()) && props@ == interleaved(
                pos@,
                *normals,
                *uvs,
                default_normal,
                default_uv,
                pos@.len() as int,
            ) && idx@ == index_values(buf),
            _ => res is None,
        },
{
    match positions {
        VertexAttribute::Values(pos) => {
            let (num_prop, props) = interleave_attributes(
                pos,
                normals,
                uvs,
                default_normal,
                default_uv,
            );
            match indices {
                Some(buf) => Some((num_prop, props, index_buffer_values(buf))),
                None => None,
            }
        },
        _ => None,
    }
}

} // verus!
