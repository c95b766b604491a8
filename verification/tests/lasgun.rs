use lasgun::{
    barrel_count, barrel_count_from, merge_all, build_upper_sah, capture_subset, merge_subset, encode_morton_3, face_count, flatten_bvh_tree, get_max_threads,
    left_shift_3, nodes_well_formed, radix_sort, BVHAccel, BVHBuildNode, BVHNodeType, BxDFKind, BxDFType,
    BxDFs, Film, LightSampleIterator, LinearBVHNode, LinearBVHNodeType, MortonPrimitive, ObjRef, PixelBuffer,
    SceneMeshes, Supersampling, TransportMode, Triangle, TriangleIndex, TriangleIterator,
    TriangleMesh, MAX_BXDFS, LineOutcome, obj_text_outcome, parse_obj, triangle_mesh_of,
};

type Bounds = (i32, i32);

fn union(a: &Bounds, b: &Bounds) -> Bounds {
    (a.0.min(b.0), a.1.max(b.1))
}

fn leaf(first: usize, n: usize, bounds: Bounds) -> Box<BVHBuildNode<Bounds>> {
    let mut node = BVHBuildNode { content: BVHNodeType::Leaf(0, 0), bounds: (0, 0) };
    node.init_leaf(first, n, bounds);
    Box::new(node)
}

fn leaves_of(node: &BVHBuildNode<Bounds>, out: &mut Vec<(usize, usize)>) {
    match &node.content {
        BVHNodeType::Leaf(first, n) => out.push((*first, *n)),
        BVHNodeType::Interior(_, c0, c1) => {
            leaves_of(c0, out);
            leaves_of(c1, out);
        }
    }
}

/// Splits the roots in halves, the first half flagged.
fn halves(roots: &Vec<Box<BVHBuildNode<Bounds>>>) -> (usize, Vec<bool>) {
    let n = roots.len();
    (0, (0..n).map(|i| i < n / 2).collect())
}

#[test]
fn it_works() {
    assert!(true);
}

#[test]
fn left_shift_3_spreads_the_low_ten_bits() {
    assert_eq!(left_shift_3(0), 0);
    assert_eq!(left_shift_3(1), 1);
    assert_eq!(left_shift_3(2), 0b1000);
    assert_eq!(left_shift_3(3), 0b1001);
    assert_eq!(left_shift_3(0b101), 0b1000001);
    assert_eq!(left_shift_3(1023), 0x0924_9249);
}

#[test]
fn left_shift_3_clamps_1024() {
    assert_eq!(left_shift_3(1024), left_shift_3(1023));
    assert_eq!(left_shift_3(1024), 0x0924_9249);
}

#[test]
fn encode_morton_3_interleaves_x_y_and_z() {
    assert_eq!(encode_morton_3(&[1, 0, 0]), 0b001);
    assert_eq!(encode_morton_3(&[0, 1, 0]), 0b010);
    assert_eq!(encode_morton_3(&[0, 0, 1]), 0b100);
    assert_eq!(encode_morton_3(&[3, 0, 0]), 0b001_001);
    assert_eq!(encode_morton_3(&[7, 1, 0]), 0b001_001_011);
    assert_eq!(encode_morton_3(&[1023, 1023, 1023]), 0x3fff_ffff);
    assert_eq!(encode_morton_3(&[1024, 0, 0]), 0x0924_9249);
}

#[test]
fn radix_sort_orders_by_code_and_keeps_ties_in_order() {
    let codes = [5u32, 3, 5, 1, 0x4000_0001];
    let mut prims: Vec<MortonPrimitive> =
        codes.iter().enumerate().map(|(index, &code)| MortonPrimitive { index, code }).collect();
    radix_sort(&mut prims);
    let order: Vec<usize> = prims.iter().map(|p| p.index).collect();
    // bit 30 is not part of the key: code 0x4000_0001 ties with 1 and stays after it
    assert_eq!(order, vec![3, 4, 1, 0, 2]);
}

#[test]
fn radix_sort_of_nothing() {
    let mut prims: Vec<MortonPrimitive> = Vec::new();
    radix_sort(&mut prims);
    assert!(prims.is_empty());
}

#[test]
fn init_interior_unions_child_bounds() {
    let mut node = BVHBuildNode { content: BVHNodeType::Leaf(0, 0), bounds: (0, 0) };
    node.init_interior(2, leaf(0, 1, (1, 4)), leaf(1, 2, (-3, 2)), &union);
    assert_eq!(node.bounds, (-3, 4));
    match node.content {
        BVHNodeType::Interior(axis, _, _) => assert_eq!(axis, 2),
        _ => panic!("not an interior node"),
    }
}

#[test]
fn flatten_lays_out_depth_first() {
    let mut inner = BVHBuildNode { content: BVHNodeType::Leaf(0, 0), bounds: (0, 0) };
    inner.init_interior(1, leaf(0, 1, (0, 1)), leaf(1, 1, (1, 2)), &union);
    let mut root = BVHBuildNode { content: BVHNodeType::Leaf(0, 0), bounds: (0, 0) };
    root.init_interior(0, Box::new(inner), leaf(2, 3, (2, 5)), &union);
    let mut nodes = vec![LinearBVHNode { bounds: (0, 0), content: LinearBVHNodeType::Leaf(0, 0) }; 5];
    let mut offset = 0;
    let at = flatten_bvh_tree(&mut nodes, &root, &mut offset);
    assert_eq!(at, 0);
    assert_eq!(offset, 5);
    let contents: Vec<String> = nodes.iter().map(|n| format!("{:?}", n.content)).collect();
    assert_eq!(contents, vec!["Interior(0, 4)", "Interior(1, 3)", "Leaf(0, 1)", "Leaf(1, 1)", "Leaf(2, 3)"]);
    assert_eq!(nodes[0].bounds, (0, 5));
    assert_eq!(nodes[1].bounds, (0, 2));
    assert!(nodes_well_formed(&nodes));
}

#[test]
fn nodes_well_formed_rejects_bad_axis_and_offsets() {
    let bad_axis = vec![
        LinearBVHNode { bounds: (0, 0), content: LinearBVHNodeType::Interior(3, 2) },
        LinearBVHNode { bounds: (0, 0), content: LinearBVHNodeType::Leaf(0, 1) },
        LinearBVHNode { bounds: (0, 0), content: LinearBVHNodeType::Leaf(1, 1) },
    ];
    assert!(!nodes_well_formed(&bad_axis));
    let bad_child = vec![
        LinearBVHNode { bounds: (0, 0), content: LinearBVHNodeType::Interior(0, 7) },
        LinearBVHNode { bounds: (0, 0), content: LinearBVHNodeType::Leaf(0, 1) },
    ];
    assert!(!nodes_well_formed(&bad_child));
}

#[test]
fn upper_sah_of_one_root_is_that_root() {
    let mut total = 7;
    let root = build_upper_sah(vec![leaf(3, 2, (0, 1))], &mut total, (0, 0), &union, &halves);
    assert_eq!(total, 7);
    assert_eq!(root.bounds, (0, 1));
    let mut found = Vec::new();
    leaves_of(&root, &mut found);
    assert_eq!(found, vec![(3, 2)]);
}

#[test]
fn upper_sah_joins_all_treelets() {
    let roots: Vec<Box<BVHBuildNode<Bounds>>> = (0..5).map(|i| leaf(i, 1, (i as i32, i as i32 + 1))).collect();
    let mut total = 5;
    let root = build_upper_sah(roots, &mut total, (0, 0), &union, &halves);
    // four interior nodes join five roots
    assert_eq!(total, 9);
    assert_eq!(root.bounds, (0, 5));
    let mut found = Vec::new();
    leaves_of(&root, &mut found);
    found.sort();
    assert_eq!(found, vec![(0, 1), (1, 1), (2, 1), (3, 1), (4, 1)]);
}

#[test]
fn upper_sah_puts_flagged_roots_first() {
    let roots: Vec<Box<BVHBuildNode<Bounds>>> = (0..4).map(|i| leaf(i, 1, (i as i32, i as i32 + 1))).collect();
    let plan = |v: &Vec<Box<BVHBuildNode<Bounds>>>| -> (usize, Vec<bool>) {
        if v.len() == 4 {
            (2, vec![false, true, false, true])
        } else {
            halves(v)
        }
    };
    let mut total = 0;
    let root = build_upper_sah(roots, &mut total, (0, 0), &union, &plan);
    match &root.content {
        BVHNodeType::Interior(axis, c0, c1) => {
            assert_eq!(*axis, 2);
            let mut first = Vec::new();
            leaves_of(c0, &mut first);
            first.sort();
            assert_eq!(first, vec![(1, 1), (3, 1)]);
            let mut second = Vec::new();
            leaves_of(c1, &mut second);
            second.sort();
            assert_eq!(second, vec![(0, 1), (2, 1)]);
        }
        _ => panic!("not an interior node"),
    }
}

#[test]
fn accel_orders_primitives_by_morton_code() {
    let primitives = vec!["a", "b", "c", "d"];
    let codes = [0b111_000u32, 0b001, 0b111_001, 0b000];
    let morton: Vec<MortonPrimitive> =
        codes.iter().enumerate().map(|(index, &code)| MortonPrimitive { index, code }).collect();
    let bounds: Vec<Bounds> = vec![(0, 1), (1, 2), (2, 3), (3, 4)];
    let accel = BVHAccel::new(primitives.clone(), (), None::<u8>, 1, morton, &bounds, (0, 0), &union, &halves);
    assert_eq!(accel.order, vec![3, 1, 0, 2]);
    assert_eq!(accel.primitives, primitives);
    assert_eq!(accel.max_prims_per_node, 1);
    assert!(nodes_well_formed(&accel.nodes));
    // every primitive sits in exactly one leaf
    let mut covered = vec![0; 4];
    for node in &accel.nodes {
        if let LinearBVHNodeType::Leaf(first, n) = node.content {
            for k in first..first + n as u32 {
                covered[k as usize] += 1;
            }
        }
    }
    assert_eq!(covered, vec![1, 1, 1, 1]);
    assert_eq!(accel.nodes[0].bounds, (0, 4));
}

#[test]
fn accel_caps_primitives_per_node() {
    let primitives: Vec<u32> = (0..300).collect();
    let morton: Vec<MortonPrimitive> = (0..300).map(|index| MortonPrimitive { index, code: 0 }).collect();
    let bounds: Vec<Bounds> = (0..300).map(|i| (i, i + 1)).collect();
    let accel = BVHAccel::new(primitives, 0u8, Some(1u8), 1000, morton, &bounds, (0, 0), &union, &halves);
    assert_eq!(accel.max_prims_per_node, 255);
    assert_eq!(accel.material, Some(1));
    assert_eq!(accel.order, (0..300).collect::<Vec<usize>>());
    assert!(nodes_well_formed(&accel.nodes));
}

#[test]
fn film_layout_is_row_major() {
    let film = Film::new(4, 2);
    assert_eq!(film.w(), 4);
    assert_eq!(film.h(), 2);
    assert_eq!(film.size(), 8);
    assert_eq!(film.offset(3, 1), 7);
    assert_eq!(film.offset(1, 1), 5);
    assert_eq!(film.position(6), (2, 1));
    assert_eq!(film.pixel(5), [0, 0, 0, 0]);
}

#[test]
fn film_offset_and_position_round_trip() {
    let film = Film::new(5, 3);
    for y in 0..3 {
        for x in 0..5 {
            assert_eq!(film.position(film.offset(x, y)), (x, y));
        }
    }
}

#[test]
fn film_set_changes_one_pixel() {
    let mut film = Film::new(3, 3);
    film.set(2, 1, [1, 2, 3, 255]);
    assert_eq!(film.pixel(5), [1, 2, 3, 255]);
    assert_eq!(film.output.iter().filter(|p| **p != [0, 0, 0, 0]).count(), 1);
}

#[test]
fn film_over_given_buffer() {
    let film = Film::new_with_output(2, 2, vec![[9, 9, 9, 9]; 6]);
    assert_eq!(film.size(), 6);
    assert_eq!(film.pixel(3), [9, 9, 9, 9]);
    assert_eq!(film.position(3), (1, 1));
}

#[test]
fn capture_subsets_cover_the_image_once() {
    let mut film = Film::new(4, 2);
    let n = 3;
    for k in 0..n {
        let shade = move |x: u32, y: u32| [x as u8, y as u8, k as u8, 255];
        capture_subset(k, n, &mut film, &shade);
    }
    for o in 0..8usize {
        let (x, y) = ((o % 4) as u8, (o / 4) as u8);
        assert_eq!(film.pixel(o), [x, y, (o % n) as u8, 255]);
    }
}

#[test]
fn capture_subset_leaves_other_pixels() {
    let mut film = Film::new(4, 2);
    let shade = |_x: u32, _y: u32| [7, 7, 7, 7];
    capture_subset(1, 4, &mut film, &shade);
    let painted: Vec<usize> = (0..8).filter(|&o| film.pixel(o) == [7, 7, 7, 7]).collect();
    assert_eq!(painted, vec![1, 5]);
}

#[test]
fn capture_subset_beyond_the_image_does_nothing() {
    let mut film = Film::new(2, 2);
    let shade = |_x: u32, _y: u32| [7, 7, 7, 7];
    capture_subset(9, 2, &mut film, &shade);
    assert!(film.output.iter().all(|p| *p == [0, 0, 0, 0]));
}

#[test]
fn barrel_count_uses_configured_threads() {
    assert_eq!(barrel_count(3), 3);
    assert!(barrel_count(0) >= 1);
    assert_eq!(barrel_count(0), get_max_threads());
}

#[test]
fn max_threads_is_the_cpu_count() {
    assert!(get_max_threads() >= 1);
    assert_eq!(get_max_threads(), num_cpus::get());
}

#[test]
fn bxdf_kinds_have_their_flags() {
    assert_eq!(BxDFKind::Constant.t(), BxDFType::none());
    assert_eq!(BxDFKind::SpecularReflection.t().bits(), 17);
    assert_eq!(BxDFKind::Specular.t().bits(), 19);
    assert_eq!(BxDFKind::Diffuse.t(), BxDFType::reflection().union(BxDFType::diffuse()));
    assert_eq!(BxDFKind::MicrofacetTransmission.t().bits(), 10);
    assert_eq!(BxDFType::all().bits(), 31);
    assert!(BxDFKind::Diffuse.matches(BxDFType::all()));
    assert!(!BxDFKind::Diffuse.matches(BxDFType::reflection()));
    assert!(BxDFKind::Diffuse.has_t(BxDFType::reflection()));
    assert!(!BxDFKind::MicrofacetReflection.has_t(BxDFType::transmission()));
    assert!(BxDFKind::SpecularTransmission.contributes(false));
    assert!(!BxDFKind::SpecularTransmission.contributes(true));
    assert!(BxDFKind::Constant.matches(BxDFType::none()));
    assert!(!BxDFKind::Constant.has_t(BxDFType::all()));
}

#[test]
fn transport_modes_differ() {
    assert_ne!(TransportMode::Radiance, TransportMode::Importance);
}

#[test]
fn pick_matching_counts_only_matching_components() {
    let mut bsdf: BxDFs<&str> = BxDFs::new();
    bsdf.add(BxDFKind::SpecularReflection, "mirror");
    bsdf.add(BxDFKind::Diffuse, "matte");
    bsdf.add(BxDFKind::SpecularTransmission, "glass");
    bsdf.add(BxDFKind::MicrofacetReflection, "glossy");
    assert_eq!(bsdf.num_components(), 4);
    let reflect = BxDFType::reflection().union(BxDFType::specular()).union(BxDFType::diffuse());
    assert_eq!(bsdf.num_matching_components(reflect), 2);
    assert_eq!(bsdf.pick_matching(reflect, 0), Some(0));
    assert_eq!(bsdf.pick_matching(reflect, 1), Some(1));
    // past the last matching component: clamped to it
    assert_eq!(bsdf.pick_matching(reflect, 5), Some(1));
    assert_eq!(bsdf.num_matching_components(BxDFType::all()), 4);
    assert_eq!(bsdf.pick_matching(BxDFType::all(), 3), Some(3));
    assert_eq!(bsdf.pick_matching(BxDFType::transmission(), 0), None);
    assert_eq!(*bsdf.get(2), "glass");
    assert_eq!(bsdf.kind(3), BxDFKind::MicrofacetReflection);
    assert_eq!(MAX_BXDFS, 8);
}

fn tri(a: u32) -> TriangleIndex {
    TriangleIndex(a, a + 1, a + 2)
}

fn two_object_mesh() -> TriangleMesh {
    TriangleMesh {
        objects: vec![vec![vec![tri(0), tri(3)], vec![tri(6)]], vec![vec![tri(9), tri(12), tri(15)]]],
        normal_count: 0,
        texture_count: 2,
    }
}

#[test]
fn triangle_index_from_three_positions() {
    assert_eq!(TriangleIndex::new(&vec![4, 5, 6]), TriangleIndex(4, 5, 6));
    assert_eq!(TriangleIndex::new(&vec![0, 1, 0x1_0000_0002]), TriangleIndex(0, 1, 2));
}

#[test]
fn face_count_sums_all_groups() {
    assert_eq!(face_count(&two_object_mesh()), 6);
    assert_eq!(two_object_mesh().face_count(), 6);
    let empty = TriangleMesh { objects: vec![vec![]], normal_count: 0, texture_count: 0 };
    assert_eq!(face_count(&empty), 0);
}

#[test]
fn triangle_iterator_visits_faces_in_order() {
    let mesh = two_object_mesh();
    let mut it = TriangleIterator::new(&mesh);
    assert_eq!(it.size_hint, 6);
    let mut seen = Vec::new();
    while let Some(t) = it.next() {
        seen.push((t.object, t.group, t.poly, t.index()));
    }
    assert_eq!(
        seen,
        vec![
            (0, 0, 0, tri(0)),
            (0, 0, 1, tri(3)),
            (0, 1, 0, tri(6)),
            (1, 0, 0, tri(9)),
            (1, 0, 1, tri(12)),
            (1, 0, 2, tri(15)),
        ]
    );
    assert_eq!(it.size_hint, 0);
    assert!(it.next().is_none());
}

#[test]
fn triangle_iterator_over_empty_mesh() {
    let mesh = TriangleMesh { objects: vec![vec![]], normal_count: 0, texture_count: 0 };
    let mut it = TriangleIterator::new(&mesh);
    assert!(it.next().is_none());
}

#[test]
fn triangle_iterator_skips_trailing_empty_object() {
    let mesh = TriangleMesh { objects: vec![vec![vec![tri(0)]], vec![]], normal_count: 0, texture_count: 0 };
    let mut it = TriangleIterator::new(&mesh);
    assert!(it.next().is_some());
    assert!(it.next().is_none());
}

#[test]
fn triangles_know_about_normals_and_texture() {
    let mesh = two_object_mesh();
    let t = Triangle::new(&mesh, 1, 0, 2);
    assert!(!t.has_n());
    assert!(t.has_uv());
    assert_eq!(t.index(), tri(15));
}

#[test]
fn scene_meshes_find_what_was_added() {
    let mut meshes = SceneMeshes::new();
    assert!(meshes.smoothing);
    let mut with_normals = two_object_mesh();
    with_normals.normal_count = 4;
    let first = meshes.add_obj(with_normals);
    assert_eq!(first, ObjRef(0));
    assert_eq!(meshes.obj(first).unwrap().normal_count, 4);
    meshes.set_mesh_smoothing(false);
    let mut again = two_object_mesh();
    again.normal_count = 4;
    let second = meshes.add_obj(again);
    assert_eq!(second, ObjRef(1));
    // normals are dropped when smoothing is off
    assert_eq!(meshes.obj(second).unwrap().normal_count, 0);
    assert_eq!(meshes.obj(second).unwrap().texture_count, 2);
    assert_eq!(meshes.obj(first).unwrap().normal_count, 4);
    assert!(meshes.obj(ObjRef(2)).is_none());
}

#[test]
fn supersampling_grid() {
    let mut s = Supersampling::new();
    assert_eq!(s.num_samples(), 1);
    s.set(0);
    assert_eq!(s.num_samples(), 1);
    s.set(1);
    assert_eq!(s.num_samples(), 4);
    s.set(2);
    assert_eq!(s.root, 3);
    assert_eq!(s.num_samples(), 9);
    let mut slots: Vec<usize> = Vec::new();
    for i in 0..3 {
        for j in 0..3 {
            slots.push(s.sample_index(i, j));
        }
    }
    assert_eq!(slots, (0..9).collect::<Vec<usize>>());
    s.set(254);
    assert_eq!(s.num_samples(), 65025);
}

#[test]
fn light_samples_until_one_is_visible() {
    let draws = std::cell::Cell::new(0u32);
    let sampler = || {
        draws.set(draws.get() + 1);
        if draws.get() % 3 == 0 { Some(draws.get()) } else { None }
    };
    let mut it = LightSampleIterator::new(sampler, 5);
    assert_eq!(it.size_hint(), (0, Some(5)));
    assert_eq!(it.next(), Some(3));
    assert_eq!(it.remaining, 2);
    // the two remaining draws are not visible
    assert_eq!(it.next(), None);
    assert_eq!(it.remaining, 0);
    assert_eq!(it.next(), None);
    assert_eq!(draws.get(), 5);
}

fn four_prim_accel() -> BVHAccel<i32, (), u8, Bounds> {
    let primitives = vec![0, 1, 2, 3];
    let codes = [0b000u32, 0b010, 0b100, 0b110];
    let morton: Vec<MortonPrimitive> =
        codes.iter().enumerate().map(|(index, &code)| MortonPrimitive { index, code }).collect();
    let bounds: Vec<Bounds> = (0..4).map(|i| (i, i + 1)).collect();
    BVHAccel::new(primitives, (), None, 1, morton, &bounds, (i32::MAX, i32::MIN), &union, &halves)
}

fn log_prim(p: &i32, mut log: Vec<i32>) -> (bool, Vec<i32>) {
    log.push(*p);
    (*p == 2, log)
}

#[test]
fn intersect_tests_only_reached_leaves() {
    let accel = four_prim_accel();
    let hits_bounds = |b: &Bounds| b.0 <= 2 && 2 < b.1;
    let (hit, log) = accel.intersect(&[false, false, false], Vec::new(), &hits_bounds, &log_prim);
    assert!(hit);
    assert_eq!(log, vec![2]);
}

#[test]
fn intersect_walks_near_children_first() {
    let accel = four_prim_accel();
    let everywhere = |_b: &Bounds| true;
    let (hit, forward) = accel.intersect(&[false, false, false], Vec::new(), &everywhere, &log_prim);
    assert!(hit);
    assert_eq!(forward, vec![0, 1, 2, 3]);
    let (_, backward) = accel.intersect(&[true, true, true], Vec::new(), &everywhere, &log_prim);
    assert_eq!(backward, vec![3, 2, 1, 0]);
}

#[test]
fn intersect_missing_everything() {
    let accel = four_prim_accel();
    let nowhere = |_b: &Bounds| false;
    let (hit, log) = accel.intersect(&[false, false, false], vec![9], &nowhere, &log_prim);
    assert!(!hit);
    assert_eq!(log, vec![9]);
}

#[test]
fn merged_worker_films_make_the_image() {
    let n = 3;
    let mut film = Film::new(5, 2);
    for k in 0..n {
        let mut part = Film::new(5, 2);
        let shade = move |x: u32, y: u32| [x as u8, y as u8, k as u8, 1];
        capture_subset(k, n, &mut part, &shade);
        merge_subset(k, n, &mut film, &part);
    }
    for o in 0..10usize {
        assert_eq!(film.pixel(o), [(o % 5) as u8, (o / 5) as u8, (o % n) as u8, 1]);
    }
}

#[test]
fn merge_subset_copies_only_its_subset() {
    let mut film = Film::new(2, 2);
    let part = Film::new_with_output(2, 2, vec![[5, 5, 5, 5]; 4]);
    merge_subset(1, 2, &mut film, &part);
    assert_eq!(film.output, vec![[0, 0, 0, 0], [5, 5, 5, 5], [0, 0, 0, 0], [5, 5, 5, 5]]);
}

#[test]
fn iterable_meshes() {
    assert!(two_object_mesh().is_iterable());
    let trailing_empty = TriangleMesh { objects: vec![vec![vec![tri(0)]], vec![]], normal_count: 0, texture_count: 0 };
    assert!(trailing_empty.is_iterable());
    let empty_group = TriangleMesh { objects: vec![vec![vec![], vec![tri(0)]]], normal_count: 0, texture_count: 0 };
    assert!(!empty_group.is_iterable());
    let empty_middle = TriangleMesh { objects: vec![vec![], vec![vec![tri(0)]]], normal_count: 0, texture_count: 0 };
    assert!(!empty_middle.is_iterable());
}

fn plane_mesh(text: &str) -> TriangleMesh {
    let data: obj::Obj<obj::SimplePolygon> = obj::Obj::load_buf(&mut std::io::Cursor::new(text)).unwrap();
    let objects = data
        .objects
        .iter()
        .map(|o| {
            o.groups
                .iter()
                .map(|g| g.polys.iter().map(|p| TriangleIndex::new(&p.iter().map(|t| t.0).collect())).collect())
                .collect()
        })
        .collect();
    TriangleMesh { objects, normal_count: data.normal.len(), texture_count: data.texture.len() }
}

#[test]
fn plane_mesh_triangles_in_file_order() {
    let mesh = plane_mesh("o plane\nv -1 0 -1\nv 1 0 -1\nv 1 0 1\nv -1 0 1\n\nf 1 2 3\nf 1 3 4\n");
    assert!(mesh.is_iterable());
    assert_eq!(face_count(&mesh), 2);
    let mut it = TriangleIterator::new(&mesh);
    let first = it.next().unwrap();
    assert_eq!(first.index(), TriangleIndex(0, 1, 2));
    assert!(!first.has_n());
    assert!(!first.has_uv());
    assert_eq!(it.next().unwrap().index(), TriangleIndex(0, 2, 3));
    assert!(it.next().is_none());
}

#[test]
fn upper_sah_keeps_two_roots_as_children() {
    let roots = vec![leaf(0, 1, (0, 1)), leaf(1, 1, (4, 5))];
    let mut total = 0;
    let root = build_upper_sah(roots, &mut total, (0, 0), &union, &halves);
    assert_eq!(total, 1);
    assert_eq!(root.bounds, (0, 5));
    match &root.content {
        BVHNodeType::Interior(_, c0, c1) => {
            assert!(matches!(c0.content, BVHNodeType::Leaf(0, 1)));
            assert_eq!(c0.bounds, (0, 1));
            assert!(matches!(c1.content, BVHNodeType::Leaf(1, 1)));
            assert_eq!(c1.bounds, (4, 5));
        }
        _ => panic!("not an interior node"),
    }
}

#[test]
fn accel_leaf_bounds_are_unions_of_their_primitives() {
    let primitives = vec!["a", "b", "c", "d"];
    let codes = [0u32, 0, 1 << 20, 1 << 20];
    let morton: Vec<MortonPrimitive> =
        codes.iter().enumerate().map(|(index, &code)| MortonPrimitive { index, code }).collect();
    let bounds: Vec<Bounds> = vec![(0, 1), (5, 6), (2, 3), (8, 9)];
    let accel = BVHAccel::new(primitives, (), None::<u8>, 4, morton, &bounds, (100, -100), &union, &halves);
    assert_eq!(accel.nodes[0].bounds, (0, 9));
    let mut leaves = Vec::new();
    for node in accel.nodes.iter() {
        if let LinearBVHNodeType::Leaf(first, n) = node.content {
            leaves.push((first, n, node.bounds));
        }
    }
    leaves.sort();
    assert_eq!(leaves, vec![(0, 2, (0, 6)), (2, 2, (2, 9))]);
}

const PLANE: &str = "o plane\nv -1 0 -1\nv 1 0 -1\nv 1 0 1\nv -1 0 1\n\nf 1 2 3\nf 1 3 4\n";

#[test]
fn obj_plane_parses_into_two_triangles() {
    assert_eq!(obj_text_outcome(PLANE), LineOutcome::Fine);
    let data = parse_obj(PLANE).unwrap();
    assert_eq!(data.polygons, vec![vec![vec![vec![0, 1, 2], vec![0, 2, 3]]]]);
    assert_eq!(data.normal_count, 0);
    assert_eq!(data.texture_count, 0);
    let mesh = triangle_mesh_of(&data).unwrap();
    assert_eq!(mesh.objects, vec![vec![vec![TriangleIndex(0, 1, 2), TriangleIndex(0, 2, 3)]]]);
    assert_eq!(data.vertices.raw.position.len(), 4);
}

#[test]
fn obj_counts_normals_and_texture_coordinates() {
    let text = "v 0 0 0\nv 1 0 0\nv 0 1 0\nvn 0 0 1\nvt 0 0\nvt 1 0\nf 1/1/1 2/2/1 3//1\n";
    assert_eq!(obj_text_outcome(text), LineOutcome::Fine);
    let data = parse_obj(text).unwrap();
    assert_eq!(data.normal_count, 1);
    assert_eq!(data.texture_count, 2);
    assert_eq!(data.polygons, vec![vec![vec![vec![0, 1, 2]]]]);
}

#[test]
fn obj_negative_indices_count_from_the_end() {
    let text = "v 0 0 0\nv 1 0 0\nv 0 1 0\nf -3 -2 -1\n";
    let data = parse_obj(text).unwrap();
    assert_eq!(data.polygons, vec![vec![vec![vec![0, 1, 2]]]]);
}

#[test]
fn obj_quad_is_no_triangle_mesh() {
    let text = "v 0 0 0\nv 1 0 0\nv 1 1 0\nv 0 1 0\nf 1 2 3 4\n";
    let data = parse_obj(text).unwrap();
    assert!(triangle_mesh_of(&data).is_none());
}

#[test]
fn obj_face_without_position_is_refused() {
    assert_eq!(obj_text_outcome("f x 1 2\n"), LineOutcome::Fails);
    assert!(parse_obj("f x 1 2\n").is_none());
    // the refusal comes first: the reader stops before the bad keyword
    assert_eq!(obj_text_outcome("f 1 x\nbogus\n"), LineOutcome::Fails);
    assert!(parse_obj("f 1 x\nbogus\n").is_none());
    // an index too large for an isize does not parse
    assert_eq!(obj_text_outcome("f 99999999999999999999999 1 1\n"), LineOutcome::Fails);
}

#[test]
fn obj_lines_the_reader_panics_on() {
    assert_eq!(obj_text_outcome("v 1 2\n"), LineOutcome::Panics);
    assert_eq!(obj_text_outcome("vt 1\n"), LineOutcome::Panics);
    assert_eq!(obj_text_outcome("vn 1 2 x\n"), LineOutcome::Panics);
    assert_eq!(obj_text_outcome("v 1.2.3 0 0\n"), LineOutcome::Panics);
    assert_eq!(obj_text_outcome("v 1e 0 0\n"), LineOutcome::Panics);
    assert_eq!(obj_text_outcome("f 0 1 2\n"), LineOutcome::Panics);
    assert_eq!(obj_text_outcome("f 1/0 2 3\n"), LineOutcome::Panics);
    assert_eq!(obj_text_outcome("f 1//-0 2 3\n"), LineOutcome::Panics);
    assert_eq!(obj_text_outcome("mtllib\n"), LineOutcome::Panics);
    assert_eq!(obj_text_outcome("bogus\n"), LineOutcome::Panics);
    assert_eq!(obj_text_outcome("\u{3000}o name\n"), LineOutcome::Panics);
    assert_eq!(obj_text_outcome("g\u{a0}name\n"), LineOutcome::Panics);
    assert_eq!(obj_text_outcome("v 0 0 0\nbogus\nf x\n"), LineOutcome::Panics);
}

#[test]
fn obj_lines_the_reader_reads() {
    assert_eq!(obj_text_outcome(""), LineOutcome::Fine);
    assert_eq!(obj_text_outcome("# comment\n\n   \t\n"), LineOutcome::Fine);
    assert_eq!(obj_text_outcome("v inf -NaN 1e5\nv +.5 -5. 1E-3\nvt 0 1 2\n"), LineOutcome::Fine);
    assert_eq!(obj_text_outcome("mtllib a.mtl\nusemtl red\nusemtl\ns off\ng\ng part\no\n"), LineOutcome::Fine);
    assert_eq!(obj_text_outcome("\u{a0}g part\r\n"), LineOutcome::Fine);
    assert!(parse_obj("\u{a0}g part\r\n").is_some());
}

#[test]
fn barrel_count_takes_the_cpus_only_when_unset() {
    assert_eq!(barrel_count_from(0, 12), 12);
    assert_eq!(barrel_count_from(3, 12), 3);
    assert_eq!(barrel_count_from(1, 1), 1);
}

#[test]
fn walk_tests_every_primitive_whose_bounds_are_hit() {
    let accel = four_prim_accel();
    for q in 0..4 {
        let hits_bounds = |b: &Bounds| b.0 <= q && q < b.1;
        let (_, log) = accel.intersect(&[true, false, true], Vec::new(), &hits_bounds, &log_prim);
        assert!(log.contains(&q));
    }
}

#[test]
fn merging_all_workers_equals_one_worker() {
    let shade = |x: u32, y: u32| [x as u8, y as u8, 7, 1];
    let mut single = Film::new(5, 3);
    capture_subset(0, 1, &mut single, &shade);
    for n in 1..5usize {
        let parts: Vec<Film> = (0..n)
            .map(|k| {
                let mut part = Film::new(5, 3);
                capture_subset(k, n, &mut part, &shade);
                part
            })
            .collect();
        let mut film = Film::new(5, 3);
        merge_all(&mut film, &parts);
        assert_eq!(film.output, single.output);
    }
}

#[test]
fn intersect_matches_a_linear_scan_keeping_the_nearest_hit() {
    let primitives = vec![0, 1, 2, 3, 4, 5];
    let codes = [0b000u32, 0b010, 0b100, 0b110, 0b111, 0b001];
    let morton: Vec<MortonPrimitive> =
        codes.iter().enumerate().map(|(index, &code)| MortonPrimitive { index, code }).collect();
    let bounds: Vec<Bounds> = vec![(0, 3), (1, 4), (2, 5), (3, 6), (0, 6), (4, 5)];
    let accel = BVHAccel::new(primitives, (), None::<u8>, 1, morton, &bounds, (i32::MAX, i32::MIN), &union, &halves);
    for q in 0..7 {
        let hits_bounds = |b: &Bounds| b.0 <= q && q < b.1;
        // a primitive is met when the point lies in its bounds, at distance 10 - p; keep the nearest
        let nearest = |p: &i32, best: i32| -> (bool, i32) {
            let b = bounds[*p as usize];
            let d = 10 - *p;
            if b.0 <= q && q < b.1 && d < best { (true, d) } else { (false, best) }
        };
        let (_, found) = accel.intersect(&[false, true, false], 100, &hits_bounds, &nearest);
        let mut scanned = 100;
        for p in 0..6 {
            scanned = nearest(&p, scanned).1;
        }
        assert_eq!(found, scanned);
    }
}

#[test]
fn root_bounds_contain_every_primitive() {
    let primitives = vec![0, 1, 2, 3];
    let codes = [0u32, 1 << 20, 0b101, 1 << 25];
    let morton: Vec<MortonPrimitive> =
        codes.iter().enumerate().map(|(index, &code)| MortonPrimitive { index, code }).collect();
    let bounds: Vec<Bounds> = vec![(3, 4), (-2, 0), (7, 9), (1, 2)];
    let accel = BVHAccel::new(primitives, (), None::<u8>, 1, morton, &bounds, (i32::MAX, i32::MIN), &union, &halves);
    let root = accel.nodes[0].bounds;
    for b in bounds.iter() {
        assert!(root.0 <= b.0 && b.1 <= root.1);
    }
    assert_eq!(root, (-2, 9));
}
