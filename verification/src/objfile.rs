use vstd::prelude::*;
use crate::objtext::{LineOutcome, obj_outcome, obj_text_loads};
use crate::mesh::{TriangleIndex, TriangleMesh};

verus! {

/// The vertex data of a parsed .obj file (positions, normals, texture
/// coordinates), which the renderer reads and the library only carries. The
/// parsed file's type has a bound on a trait of the `obj` crate that Verus
/// cannot declare, so the file is held here out of Verus's sight.
#[verifier::external_body]
pub struct ObjVertices {
    pub raw: obj::Obj<'static, obj::SimplePolygon>,
}

/// A parsed .obj file: for each object, each of its groups, each polygon of
/// the group and each vertex of the polygon, the vertex's position index;
/// how many vertex normals and texture coordinates the file lists; and the
/// parsed file itself, which holds the vertex data.
pub struct ObjData {
    pub polygons: Vec<Vec<Vec<Vec<usize>>>>,
    pub normal_count: usize,
    pub texture_count: usize,
    pub vertices: ObjVertices,
}

/// What `obj::Obj::load_buf` parses from an .obj text that it accepts: the
/// position index of each vertex of each polygon of each group of each
/// object, and the numbers of vertex normals and of texture coordinates.
pub uninterp spec fn obj_polygons(text: Seq<char>) -> Option<(Seq<Seq<Seq<Seq<usize>>>>, nat, nat)>;

/// Calls `obj::Obj::load_buf` on the text, read through a cursor. Where its
/// source does not panic (`obj_text_loads`), it returns an error exactly
/// where a face has a vertex reference without a position index that parses
/// as an `isize` before any line that panics (`obj_outcome` is `Fails`), and
/// the parsed file otherwise. What it parses is named `obj_polygons`; the
/// position indices themselves are not stated here.
#[verifier::external_body]
fn load_obj_text(text: &str) -> (r: Option<ObjData>)
    requires
        obj_text_loads(text@),
    ensures
        r is None <==> obj_outcome(text@) == LineOutcome::Fails,
        r is None ==> obj_polygons(text@) is None,
        r matches Some(d) ==> obj_polygons(text@) == Some(
            (d.polygons.deep_view(), d.normal_count as nat, d.texture_count as nat),
        ),
{
    match obj::Obj::<obj::SimplePolygon>::load_buf(&mut std::io::Cursor::new(text)) {
        Ok(raw) => Some(ObjData {
            polygons: raw.objects.iter().map(|o| o.groups.iter().map(|g| g.polys.iter().map(|p| p.iter().map(
                |i| i.0,
            ).collect()).collect()).collect()).collect(),
            normal_count: raw.normal.len(),
            texture_count: raw.texture.len(),
            vertices: ObjVertices { raw },
        }),
        Err(_) => None,
    }
}

/// Parses the string contents of an .obj file. `None` where the reader
/// refuses the text: a face with a vertex reference whose position index
/// does not parse.
pub fn parse_obj(text: &str) -> (r: Option<ObjData>)
    requires
        obj_text_loads(text@),
    ensures
        r is None <==> obj_outcome(text@) == LineOutcome::Fails,
        r is None ==> obj_polygons(text@) is None,
        r matches Some(d) ==> obj_polygons(text@) == Some(
            (d.polygons.deep_view(), d.normal_count as nat, d.texture_count as nat),
        ),
{
    load_obj_text(text)
}

/// The triangle over the vertices of a polygon with three vertices.
pub open spec fn triangle_of(p: Seq<usize>) -> TriangleIndex {
    TriangleIndex(p[0] as u32, p[1] as u32, p[2] as u32)
}

/// Every polygon has three vertices.
pub open spec fn all_triangles(polys: Seq<Seq<Seq<Seq<usize>>>>) -> bool {
    forall|o: int, g: int, k: int|
        0 <= o < polys.len() && 0 <= g < polys[o].len() && 0 <= k < polys[o][g].len() ==> (#[trigger] polys[o][g][k]).len()
            == 3
}

/// `objects` holds, for each polygon of `polys`, in the same places, its
/// triangle.
pub open spec fn triangles_of(objects: Seq<Vec<Vec<TriangleIndex>>>, polys: Seq<Seq<Seq<Seq<usize>>>>) -> bool {
    &&& objects.len() == polys.len()
    &&& forall|o: int| 0 <= o < polys.len() ==> (#[trigger] objects[o])@.len() == polys[o].len()
    &&& forall|o: int, g: int|
        0 <= o < polys.len() && 0 <= g < polys[o].len() ==> (#[trigger] objects[o]@[g])@.len() == polys[o][g].len()
    &&& forall|o: int, g: int, k: int|
        0 <= o < polys.len() && 0 <= g < polys[o].len() && 0 <= k < polys[o][g].len() ==> #[trigger] objects[o]@[g]@[k]
            == triangle_of(polys[o][g][k])
}

/// The triangles of the polygons of one group, in order; `None` unless
/// every polygon has three vertices.
fn group_triangles(ps: &Vec<Vec<usize>>) -> (r: Option<Vec<TriangleIndex>>)
    ensures
        r is Some <==> forall|k: int| 0 <= k < ps@.len() ==> (#[trigger] ps@[k])@.len() == 3,
        r matches Some(ts) ==> ts@.len() == ps@.len() && forall|k: int| 0 <= k < ps@.len() ==> #[trigger] ts@[k]
            == triangle_of(ps@[k]@),
{
    let mut ts: Vec<TriangleIndex> = Vec::new();
    let mut k: usize = 0;
    while k < ps.len()
        invariant
            k <= ps@.len(),
            ts@.len() == k,
            forall|k2: int| 0 <= k2 < k ==> (#[trigger] ps@[k2])@.len() == 3,
            forall|k2: int| 0 <= k2 < k ==> #[trigger] ts@[k2] == triangle_of(ps@[k2]@),
        decreases ps@.len() - k,
    {
        let p = &ps[k];
        if p.len() != 3 {
            return None;
        }
        let tri = TriangleIndex::new(p);
        ts.push(tri);
        k = k + 1;
    }
    Some(ts)
}

/// The triangles of the groups of one object; `None` unless every polygon
/// has three vertices.
fn object_triangles(gs: &Vec<Vec<Vec<usize>>>) -> (r: Option<Vec<Vec<TriangleIndex>>>)
    ensures
        r is Some <==> forall|g: int, k: int| 0 <= g < gs@.len() && 0 <= k < gs@[g]@.len() ==> (#[trigger] gs@[g]@[k])@.len() == 3,
        r matches Some(out) ==> {
            &&& out@.len() == gs@.len()
            &&& forall|g: int| 0 <= g < gs@.len() ==> (#[trigger] out@[g])@.len() == gs@[g]@.len()
            &&& forall|g: int, k: int| 0 <= g < gs@.len() && 0 <= k < gs@[g]@.len() ==> #[trigger] out@[g]@[k]
                == triangle_of(gs@[g]@[k]@)
        },
{
    let mut out: Vec<Vec<TriangleIndex>> = Vec::new();
    let mut g: usize = 0;
    while g < gs.len()
        invariant
            g <= gs@.len(),
            out@.len() == g,
            forall|g2: int, k: int| 0 <= g2 < g && 0 <= k < gs@[g2]@.len() ==> (#[trigger] gs@[g2]@[k])@.len() == 3,
            forall|g2: int| 0 <= g2 < g ==> (#[trigger] out@[g2])@.len() == gs@[g2]@.len(),
            forall|g2: int, k: int| 0 <= g2 < g && 0 <= k < gs@[g2]@.len() ==> #[trigger] out@[g2]@[k]
                == triangle_of(gs@[g2]@[k]@),
        decreases gs@.len() - g,
    {
        match group_triangles(&gs[g]) {
            Some(ts) => {
                out.push(ts);
            },
            None => {
                return None;
            },
        }
        g = g + 1;
    }
    Some(out)
}

/// The triangle mesh of a parsed .obj file: `None` unless every polygon is
/// a triangle; otherwise each polygon becomes the triangle over its
/// position indices, in the same object and group and order, and the
/// counts of normals and texture coordinates carry over.
pub fn triangle_mesh_of(d: &ObjData) -> (r: Option<TriangleMesh>)
    ensures
        r is Some <==> all_triangles(d.polygons.deep_view()),
        r matches Some(m) ==> {
            &&& triangles_of(m.objects@, d.polygons.deep_view())
            &&& m.normal_count == d.normal_count
            &&& m.texture_count == d.texture_count
        },
{
    let ghost polys = d.polygons.deep_view();
    let ghost pv = d.polygons@;
    proof {
        assert forall|o: int| 0 <= o < pv.len() implies #[trigger] polys[o].len() == pv[o]@.len() by {}
        assert forall|o: int, g: int| 0 <= o < pv.len() && 0 <= g < pv[o]@.len() implies #[trigger] polys[o][g].len() == pv[o]@[g]@.len() by {}
        assert forall|o: int, g: int, k: int| 0 <= o < pv.len() && 0 <= g < pv[o]@.len() && 0 <= k < pv[o]@[g]@.len() implies #[trigger] polys[o][g][k] == pv[o]@[g]@[k]@ by {
            assert(polys[o][g][k] =~= pv[o]@[g]@[k]@);
        }
    }
    let mut objects: Vec<Vec<Vec<TriangleIndex>>> = Vec::new();
    let mut o: usize = 0;
    while o < d.polygons.len()
        invariant
            pv == d.polygons@,
            polys == d.polygons.deep_view(),
            polys.len() == pv.len(),
            forall|o2: int| 0 <= o2 < pv.len() ==> #[trigger] polys[o2].len() == pv[o2]@.len(),
            forall|o2: int, g: int| 0 <= o2 < pv.len() && 0 <= g < pv[o2]@.len() ==> #[trigger] polys[o2][g].len() == pv[o2]@[g]@.len(),
            forall|o2: int, g: int, k: int| 0 <= o2 < pv.len() && 0 <= g < pv[o2]@.len() && 0 <= k < pv[o2]@[g]@.len() ==> #[trigger] polys[o2][g][k] == pv[o2]@[g]@[k]@,
            o <= pv.len(),
            objects@.len() == o,
            forall|o2: int, g: int, k: int|
                0 <= o2 < o && 0 <= g < pv[o2]@.len() && 0 <= k < pv[o2]@[g]@.len() ==> (#[trigger] pv[o2]@[g]@[k])@.len() == 3,
            forall|o2: int| 0 <= o2 < o ==> (#[trigger] objects@[o2])@.len() == pv[o2]@.len(),
            forall|o2: int, g: int| 0 <= o2 < o && 0 <= g < pv[o2]@.len() ==> (#[trigger] objects@[o2]@[g])@.len() == pv[o2]@[g]@.len(),
            forall|o2: int, g: int, k: int|
                0 <= o2 < o && 0 <= g < pv[o2]@.len() && 0 <= k < pv[o2]@[g]@.len() ==> #[trigger] objects@[o2]@[g]@[k]
                    == triangle_of(pv[o2]@[g]@[k]@),
        decreases pv.len() - o,
    {
        match object_triangles(&d.polygons[o]) {
            Some(gs) => {
                objects.push(gs);
            },
            None => {
                proof {
                    let (g, k) = choose|g: int, k: int| 0 <= g < pv[o as int]@.len() && 0 <= k < pv[o as int]@[g]@.len() && !((
                        #[trigger] pv[o as int]@[g]@[k])@.len() == 3);
                    assert(polys[o as int][g][k] == pv[o as int]@[g]@[k]@);
                    assert(polys[o as int].len() == pv[o as int]@.len());
                    assert(polys[o as int][g].len() == pv[o as int]@[g]@.len());
                    assert(polys[o as int][g][k].len() != 3);
                    assert(!all_triangles(polys));
                }
                return None;
            },
        }
        o = o + 1;
    }
    proof {
        assert forall|o2: int, g: int, k: int|
            0 <= o2 < polys.len() && 0 <= g < polys[o2].len() && 0 <= k < polys[o2][g].len() implies (
            #[trigger] polys[o2][g][k]).len() == 3 && objects@[o2]@[g]@[k] == triangle_of(polys[o2][g][k]) by {
            assert(polys[o2][g][k] == pv[o2]@[g]@[k]@);
        }
        assert forall|o2: int, g: int| 0 <= o2 < polys.len() && 0 <= g < polys[o2].len() implies (
            #[trigger] objects@[o2]@[g])@.len() == polys[o2][g].len() by {
            assert(polys[o2][g].len() == pv[o2]@[g]@.len());
        }
    }
    Some(TriangleMesh { objects, normal_count: d.normal_count, texture_count: d.texture_count })
}

} // verus!
