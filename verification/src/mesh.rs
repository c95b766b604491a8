use vstd::prelude::*;

verus! {

/// Position indices of the three vertices of a triangle face.
#[derive(Clone, Copy, Debug, PartialEq, Eq, Structural)]
pub struct TriangleIndex(pub u32, pub u32, pub u32);

impl TriangleIndex {
    /// The triangle whose vertices have the position indices `positions`
    /// (one per vertex of a parsed polygon). Only triangles are accepted.
    pub fn new(positions: &Vec<usize>) -> (t: TriangleIndex)
        requires
            positions@.len() == 3,
        ensures
            t.0 == positions@[0] as u32,
            t.1 == positions@[1] as u32,
            t.2 == positions@[2] as u32,
    {
        TriangleIndex(positions[0] as u32, positions[1] as u32, positions[2] as u32)
    }
}

/// The index data of a triangle mesh loaded from an .obj file: for each
/// object, for each of its groups, the triangles of the group; and how many
/// vertex normals and texture coordinates the file provides.
pub struct TriangleMesh {
    pub objects: Vec<Vec<Vec<TriangleIndex>>>,
    pub normal_count: usize,
    pub texture_count: usize,
}

/// Number of triangles in the first `n` groups of `groups`.
pub open spec fn faces_in_groups(groups: Seq<Vec<TriangleIndex>>, n: int) -> nat
    decreases n,
{
    if n <= 0 {
        0
    } else {
        faces_in_groups(groups, n - 1) + groups[n - 1]@.len()
    }
}

/// Number of triangles in the first `n` objects of `objects`.
pub open spec fn faces_in_objects(objects: Seq<Vec<Vec<TriangleIndex>>>, n: int) -> nat
    decreases n,
{
    if n <= 0 {
        0
    } else {
        faces_in_objects(objects, n - 1) + faces_in_groups(objects[n - 1]@, objects[n - 1]@.len() as int)
    }
}

/// Number of triangles in the whole mesh.
pub open spec fn total_faces(objects: Seq<Vec<Vec<TriangleIndex>>>) -> nat {
    faces_in_objects(objects, objects.len() as int)
}

/// `(o, g, p)` names triangle `p` of group `g` of object `o`.
pub open spec fn is_face(objects: Seq<Vec<Vec<TriangleIndex>>>, o: int, g: int, p: int) -> bool {
    &&& 0 <= o < objects.len()
    &&& 0 <= g < objects[o]@.len()
    &&& 0 <= p < objects[o]@[g]@.len()
}

/// Position of triangle `(o, g, p)` when the triangles are listed object by
/// object, group by group.
pub open spec fn face_rank(objects: Seq<Vec<Vec<TriangleIndex>>>, o: int, g: int, p: int) -> int {
    faces_in_objects(objects, o) + faces_in_groups(objects[o]@, g) + p
}

/// Every group holds a triangle, and every object but the last holds a group.
pub open spec fn iterable(objects: Seq<Vec<Vec<TriangleIndex>>>) -> bool {
    &&& forall|o: int| 0 <= o < objects.len() - 1 ==> (#[trigger] objects[o])@.len() >= 1
    &&& forall|o: int, g: int| 0 <= o < objects.len() && 0 <= g < objects[o]@.len() ==> (
    #[trigger] objects[o]@[g])@.len() >= 1
}

proof fn lemma_groups_mono(groups: Seq<Vec<TriangleIndex>>, a: int, b: int)
    requires
        a <= b,
    ensures
        faces_in_groups(groups, a) <= faces_in_groups(groups, b),
    decreases b - a,
{
    if a < b {
        lemma_groups_mono(groups, a, b - 1);
    }
}

proof fn lemma_objects_mono(objects: Seq<Vec<Vec<TriangleIndex>>>, a: int, b: int)
    requires
        a <= b,
    ensures
        faces_in_objects(objects, a) <= faces_in_objects(objects, b),
    decreases b - a,
{
    if a < b {
        lemma_objects_mono(objects, a, b - 1);
    }
}

/// A triangle's rank lies below the number of triangles before the next
/// object.
proof fn lemma_rank_below_next(objects: Seq<Vec<Vec<TriangleIndex>>>, o: int, g: int, p: int)
    requires
        is_face(objects, o, g, p),
    ensures
        0 <= face_rank(objects, o, g, p) < faces_in_objects(objects, o + 1),
        face_rank(objects, o, g, p) < total_faces(objects),
{
    lemma_groups_mono(objects[o]@, g + 1, objects[o]@.len() as int);
    lemma_objects_mono(objects, o + 1, objects.len() as int);
}

impl TriangleMesh {
    /// The mesh's faces, object by object and group by group.
    pub open spec fn faces(&self) -> Seq<Vec<Vec<TriangleIndex>>> {
        self.objects@
    }

    /// Whether every group holds a triangle and every object but the last
    /// holds a group, as walking the triangles requires.
    pub fn is_iterable(&self) -> (b: bool)
        ensures
            b == iterable(self.faces()),
    {
        let n = self.objects.len();
        let mut o: usize = 0;
        while o < n
            invariant
                n == self.objects@.len(),
                0 <= o <= n,
                forall|i: int| 0 <= i < o && i < n - 1 ==> (#[trigger] self.faces()[i])@.len() >= 1,
                forall|i: int, g: int| 0 <= i < o && 0 <= g < self.faces()[i]@.len() ==> (
                #[trigger] self.faces()[i]@[g])@.len() >= 1,
            decreases n - o,
        {
            let groups = &self.objects[o];
            if groups.len() == 0 && o + 1 < n {
                return false;
            }
            let mut g: usize = 0;
            while g < groups.len()
                invariant
                    n == self.objects@.len(),
                    0 <= o < n,
                    *groups == self.faces()[o as int],
                    0 <= g <= groups@.len(),
                    forall|j: int| 0 <= j < g ==> (#[trigger] groups@[j])@.len() >= 1,
                decreases groups@.len() - g,
            {
                if groups[g].len() == 0 {
                    return false;
                }
                g = g + 1;
            }
            o = o + 1;
        }
        true
    }

    /// Number of faces on this mesh.
    pub fn face_count(&self) -> (n: usize)
        requires
            total_faces(self.faces()) <= usize::MAX,
        ensures
            n == total_faces(self.faces()),
    {
        let ghost objs = self.objects@;
        let mut size: usize = 0;
        let mut i: usize = 0;
        while i < self.objects.len()
            invariant
                objs == self.objects@,
                total_faces(objs) <= usize::MAX,
                0 <= i <= objs.len(),
                size == faces_in_objects(objs, i as int),
            decreases objs.len() - i,
        {
            let groups = &self.objects[i];
            let mut j: usize = 0;
            while j < groups.len()
                invariant
                    objs == self.objects@,
                    total_faces(objs) <= usize::MAX,
                    0 <= i < objs.len(),
                    *groups == objs[i as int],
                    0 <= j <= groups@.len(),
                    size == faces_in_objects(objs, i as int) + faces_in_groups(groups@, j as int),
                decreases groups@.len() - j,
            {
                proof {
                    lemma_groups_mono(groups@, j + 1, groups@.len() as int);
                    lemma_objects_mono(objs, i + 1, objs.len() as int);
                }
                size = size + groups[j].len();
                j = j + 1;
            }
            i = i + 1;
        }
        size
    }
}

/// Number of faces on the mesh `mesh`.
pub fn face_count(mesh: &TriangleMesh) -> (n: usize)
    requires
        total_faces(mesh.faces()) <= usize::MAX,
    ensures
        n == total_faces(mesh.faces()),
{
    mesh.face_count()
}

/// A triangle of a mesh: triangle `poly` of group `group` of object
/// `object`.
pub struct Triangle<'a> {
    /// Object index within the mesh
    pub object: u16,
    /// Group index within the object
    pub group: u16,
    /// Triangle index within the group
    pub poly: u32,
    /// The mesh that holds this triangle
    pub mesh: &'a TriangleMesh,
}

impl<'a> Triangle<'a> {
    pub fn new(mesh: &'a TriangleMesh, object: u16, group: u16, poly: u32) -> (t: Triangle<'a>)
        ensures
            t.mesh == mesh,
            t.object == object,
            t.group == group,
            t.poly == poly,
    {
        Triangle { object, group, poly, mesh }
    }

    /// The position indices of this triangle's vertices.
    pub fn index(&self) -> (t: TriangleIndex)
        requires
            is_face(self.mesh.faces(), self.object as int, self.group as int, self.poly as int),
        ensures
            t == self.mesh.faces()[self.object as int]@[self.group as int]@[self.poly as int],
    {
        self.mesh.objects[self.object as usize][self.group as usize][self.poly as usize]
    }

    /// Whether this triangle's mesh has vertex normals.
    pub fn has_n(&self) -> (b: bool)
        ensures
            b == (self.mesh.normal_count > 0),
    {
        self.mesh.normal_count > 0
    }

    /// Whether this triangle's mesh has texture coordinates.
    pub fn has_uv(&self) -> (b: bool)
        ensures
            b == (self.mesh.texture_count > 0),
    {
        self.mesh.texture_count > 0
    }
}

/// Walks the triangles of a mesh, object by object and group by group.
/// `size_hint` counts the triangles still to come; the three indices are the
/// position of the next one.
pub struct TriangleIterator<'a> {
    pub mesh: &'a TriangleMesh,
    pub size_hint: usize,
    pub object_index: usize,
    pub group_index: usize,
    pub poly_index: usize,
}

impl<'a> TriangleIterator<'a> {
    /// The iterator is at a position consistent with its mesh: `size_hint`
    /// triangles follow the next position, which names a triangle whenever any
    /// are left.
    pub open spec fn inv(&self) -> bool {
        let objs = self.mesh.faces();
        &&& iterable(objs)
        &&& total_faces(objs) <= usize::MAX
        &&& self.object_index <= objs.len()
        &&& self.object_index == objs.len() ==> self.group_index == 0 && self.poly_index == 0
        &&& self.size_hint == total_faces(objs) - face_rank(
            objs,
            self.object_index as int,
            self.group_index as int,
            self.poly_index as int,
        )
        &&& self.size_hint > 0 ==> is_face(
            objs,
            self.object_index as int,
            self.group_index as int,
            self.poly_index as int,
        )
    }

    /// How many triangles have been returned so far.
    pub open spec fn yielded(&self) -> int {
        total_faces(self.mesh.faces()) - self.size_hint
    }

    pub fn new(mesh: &'a TriangleMesh) -> (it: TriangleIterator<'a>)
        requires
            total_faces(mesh.faces()) <= usize::MAX,
        ensures
            it.mesh == mesh,
            it.size_hint == total_faces(mesh.faces()),
            it.object_index == 0 && it.group_index == 0 && it.poly_index == 0,
            iterable(mesh.faces()) ==> it.inv(),
    {
        let it = TriangleIterator {
            mesh,
            size_hint: face_count(mesh),
            object_index: 0,
            group_index: 0,
            poly_index: 0,
        };
        proof {
            let objs = mesh.faces();
            if iterable(objs) && it.size_hint > 0 {
                assert(objs.len() > 0);
                if objs[0]@.len() == 0 {
                    assert(objs.len() == 1);
                    assert(faces_in_groups(objs[0]@, 0) == 0);
                    assert(faces_in_objects(objs, 0) == 0);
                    assert(total_faces(objs) == 0);
                }
                assert(objs[0]@[0]@.len() >= 1);
            }
        }
        it
    }

    /// Returns the next triangle: the triangle at the current position, whose
    /// rank is the number of triangles returned before it, or `None` once all
    /// of the mesh's triangles have been returned.
    pub fn next(&mut self) -> (r: Option<Triangle<'a>>)
        requires
            old(self).inv(),
        ensures
            final(self).inv(),
            final(self).mesh == old(self).mesh,
            old(self).size_hint == 0 ==> r is None && *final(self) == *old(self),
            old(self).size_hint > 0 ==> {
                &&& r matches Some(t)
                &&& t.mesh == old(self).mesh
                &&& t.object == old(self).object_index as u16
                &&& t.group == old(self).group_index as u16
                &&& t.poly == old(self).poly_index as u32
                &&& is_face(
                    old(self).mesh.faces(),
                    old(self).object_index as int,
                    old(self).group_index as int,
                    old(self).poly_index as int,
                )
                &&& face_rank(
                    old(self).mesh.faces(),
                    old(self).object_index as int,
                    old(self).group_index as int,
                    old(self).poly_index as int,
                ) == old(self).yielded()
                &&& final(self).size_hint == old(self).size_hint - 1
            },
    {
        if self.size_hint == 0 {
            return None;
        }
        let ghost objs = self.mesh.faces();
        let ghost o = self.object_index as int;
        let ghost g = self.group_index as int;
        let ghost p = self.poly_index as int;
        proof {
            lemma_rank_below_next(objs, o, g, p);
        }
        let triangle = Triangle::new(
            self.mesh,
            self.object_index as u16,
            self.group_index as u16,
            self.poly_index as u32,
        );

        let object_count = self.mesh.objects.len();
        let group_count = self.mesh.objects[self.object_index].len();
        self.poly_index = self.poly_index + 1;

        if self.poly_index == self.mesh.objects[self.object_index][self.group_index].len() {
            self.poly_index = 0;
            self.group_index = self.group_index + 1;
        }
        if self.group_index == group_count {
            self.group_index = 0;
            self.object_index = self.object_index + 1;
        }
        if self.object_index == object_count {
            self.size_hint = 0;
        } else {
            self.size_hint = self.size_hint - 1;
        }
        proof {
            let o2 = self.object_index as int;
            let g2 = self.group_index as int;
            let p2 = self.poly_index as int;
            assert(face_rank(objs, o2, g2, p2) == face_rank(objs, o, g, p) + 1) by {
                if o2 == o + 1 {
                    assert(faces_in_groups(objs[o]@, g + 1) == faces_in_groups(objs[o]@, g) + objs[o]@[g]@.len());
                }
            }
            if o2 < objs.len() && self.size_hint > 0 {
                if o2 == o + 1 {
                    if objs[o2]@.len() == 0 {
                        assert(o2 == objs.len() - 1);
                        assert(faces_in_groups(objs[o2]@, 0) == 0);
                        assert(faces_in_objects(objs, o2 + 1) == faces_in_objects(objs, o2));
                    }
                }
            }
        }
        Some(triangle)
    }
}

/// Listing a mesh's triangles object by object and group by group gives each
/// triangle its own place among the first `total_faces` places: distinct
/// triangles have distinct ranks, and every rank lies below the mesh's
/// triangle count.
pub proof fn face_ranks_distinct(
    objects: Seq<Vec<Vec<TriangleIndex>>>,
    o1: int,
    g1: int,
    p1: int,
    o2: int,
    g2: int,
    p2: int,
)
    requires
        is_face(objects, o1, g1, p1),
        is_face(objects, o2, g2, p2),
        (o1, g1, p1) != (o2, g2, p2),
    ensures
        face_rank(objects, o1, g1, p1) != face_rank(objects, o2, g2, p2),
        0 <= face_rank(objects, o1, g1, p1) < total_faces(objects),
{
    lemma_rank_below_next(objects, o1, g1, p1);
    lemma_rank_below_next(objects, o2, g2, p2);
    if o1 < o2 {
        lemma_objects_mono(objects, o1 + 1, o2);
        lemma_groups_mono(objects[o2]@, 0, g2);
    } else if o2 < o1 {
        lemma_objects_mono(objects, o2 + 1, o1);
        lemma_groups_mono(objects[o1]@, 0, g1);
    } else if g1 < g2 {
        lemma_groups_mono(objects[o1]@, g1 + 1, g2);
    } else if g2 < g1 {
        lemma_groups_mono(objects[o1]@, g2 + 1, g1);
    }
}

/// Reference to a triangle mesh added to a scene: its position among the
/// scene's meshes.
#[derive(Clone, Copy, Debug, PartialEq, Eq, Structural)]
pub struct ObjRef(pub usize);

/// The mesh as a scene keeps it: with its vertex normals dropped unless
/// normal smoothing is enabled.
pub open spec fn stored_mesh(mesh: TriangleMesh, smoothing: bool) -> TriangleMesh {
    if smoothing {
        mesh
    } else {
        TriangleMesh { normal_count: 0, ..mesh }
    }
}

/// The meshes of a scene, in the order they were added, and whether normal
/// smoothing is applied to meshes that provide vertex normals.
pub struct SceneMeshes {
    pub smoothing: bool,
    pub meshes: Vec<TriangleMesh>,
}

impl SceneMeshes {
    pub open spec fn meshes(&self) -> Seq<TriangleMesh> {
        self.meshes@
    }

    /// No meshes yet; smoothing is enabled.
    pub fn new() -> (s: SceneMeshes)
        ensures
            s.smoothing,
            s.meshes() == Seq::<TriangleMesh>::empty(),
    {
        SceneMeshes { smoothing: true, meshes: Vec::new() }
    }

    pub fn set_mesh_smoothing(&mut self, enabled: bool)
        ensures
            final(self).smoothing == enabled,
            final(self).meshes() == old(self).meshes(),
    {
        self.smoothing = enabled;
    }

    /// Add the given mesh to the scene; its vertex normals are dropped when
    /// smoothing is disabled. Returns the reference under which it is found.
    pub fn add_obj(&mut self, mesh: TriangleMesh) -> (r: ObjRef)
        ensures
            final(self).smoothing == old(self).smoothing,
            r == ObjRef(old(self).meshes().len() as usize),
            final(self).meshes() == old(self).meshes().push(stored_mesh(mesh, old(self).smoothing)),
            final(self).meshes().len() == old(self).meshes().len() + 1,
            final(self).meshes()[old(self).meshes().len() as int].objects == mesh.objects,
            final(self).meshes()[old(self).meshes().len() as int].texture_count == mesh.texture_count,
            !old(self).smoothing ==> final(self).meshes()[old(self).meshes().len() as int].normal_count == 0,
            old(self).smoothing ==> final(self).meshes()[old(self).meshes().len() as int].normal_count == mesh.normal_count,
    {
        let mut mesh = mesh;
        if !self.smoothing {
            mesh.normal_count = 0;
        }
        let reference = ObjRef(self.meshes.len());
        self.meshes.push(mesh);
        reference
    }

    /// The mesh for the given reference, if the scene has one.
    pub fn obj(&self, r: ObjRef) -> (m: Option<&TriangleMesh>)
        ensures
            r.0 < self.meshes().len() ==> m == Some(&self.meshes()[r.0 as int]),
            r.0 >= self.meshes().len() ==> m is None,
    {
        if r.0 < self.meshes.len() {
            Some(&self.meshes[r.0])
        } else {
            None
        }
    }
}

/// A scene stores a mesh with its triangles and texture coordinates as
/// given; it keeps the vertex normals when normal smoothing is on and drops
/// them all, whatever else the mesh holds, when it is off.
pub proof fn smoothing_decides_the_normals(mesh: TriangleMesh)
    ensures
        stored_mesh(mesh, true) == mesh,
        stored_mesh(mesh, false).normal_count == 0,
        stored_mesh(mesh, false).objects == mesh.objects,
        stored_mesh(mesh, false).texture_count == mesh.texture_count,
{
}

/// Looking a mesh up by reference in `meshes`, as `SceneMeshes::obj` does.
pub open spec fn lookup(meshes: Seq<TriangleMesh>, r: ObjRef) -> Option<TriangleMesh> {
    if r.0 < meshes.len() {
        Some(meshes[r.0 as int])
    } else {
        None
    }
}

/// A mesh added to a scene is found under the reference that adding it
/// returned, which differs from every earlier reference, as the scene stores
/// it; every mesh added before it is still found under its own reference,
/// and no mesh under a reference past it.
pub proof fn added_mesh_is_found(meshes: Seq<TriangleMesh>, mesh: TriangleMesh, smoothing: bool, earlier: ObjRef)
    requires
        meshes.len() < usize::MAX,
        earlier.0 < meshes.len(),
    ensures
        ObjRef(meshes.len() as usize) != earlier,
        lookup(meshes.push(stored_mesh(mesh, smoothing)), ObjRef(meshes.len() as usize)) == Some(
            stored_mesh(mesh, smoothing),
        ),
        lookup(meshes.push(stored_mesh(mesh, smoothing)), earlier) == lookup(meshes, earlier),
        forall|i: usize| i > meshes.len() ==> #[trigger] lookup(meshes.push(stored_mesh(mesh, smoothing)), ObjRef(i)) is None,
{
}

} // verus!
