//! Verified core of the lasgun ray tracer: the integer logic that decides how
//! primitives are ordered and grouped into a bounding volume hierarchy, how a
//! film is laid out and split between render workers, how scattering functions
//! are classified, and how triangle meshes are enumerated.

mod morton;
mod lbvh;
mod flat;
mod sah;
mod accel;
mod film;
mod capture;
mod bxdf;
mod mesh;
mod sampling;
mod native;
mod traverse;
mod cover;
mod objtext;
mod objfile;
mod scan;

pub use crate::morton::{left_shift_3, spread10, spread_source, MortonPrimitive, radix_sort, morton_key, stable_key_order, encode_morton_3};
pub use crate::lbvh::{BVHNodeType, BVHBuildNode, node_count, union_fold, fold_steps, lbvh_ok, bit_of, lbvh_split, sorted_agreeing_above, prim_bounds_of, treelet_mask, forest_node_count, treelets_ok, unions_ok, leaf_bounds_ok, leaves_small_or_flat, split_at_bit, splits_on_coded_axis, treelets_split_on_coded_axes, build_treelets};
pub use crate::flat::{LinearBVHNodeType, LinearBVHNode, flattened_at, flatten_bvh_tree, linear_wf, nodes_well_formed, axes_in_range, linear_node_ok, flattened_tree_well_formed};
pub use crate::sah::{tree_leaves, forest_leaves, pair_leaves, forest_axes_in_range, plan_ok, side_leaves, upper_split, UpperShape, frontier, upper_unions, upper_over, planned_top, planned_joins, sah_over, build_upper_sah};
pub use crate::accel::{BVHAccel, bvh_of, bvh_of_forest, built_from, leaves_within};
pub use crate::traverse::{bounds_hit, walk_leaves, walk_stack, leaf_prims, prim_calls, state_after, any_hit, leaf_in_order, stack_count};
pub use crate::film::{Pixel, PixelBuffer, Film, pixel_offset, offset_position_inverse};
pub use crate::capture::{get_max_threads, barrel_count_from, barrel_count, in_subset, capture_subset, merge_subset, subsets_partition_pixels, merge_all, workers_make_the_single_worker_image};
pub use crate::bxdf::{BxDFType, TransportMode, BxDFKind, kind_bits, kind_matches, kind_has, matching_kind_has_flags, kinds_match_their_flags, MAX_BXDFS, count_matching, clamp_pick, BxDFs};
pub use crate::mesh::{TriangleIndex, TriangleMesh, faces_in_groups, faces_in_objects, total_faces, is_face, face_rank, iterable, face_count, Triangle, TriangleIterator, face_ranks_distinct, ObjRef, stored_mesh, SceneMeshes, lookup, added_mesh_is_found, smoothing_decides_the_normals};
pub use crate::sampling::{Supersampling, sample_slots_distinct, LightSampleIterator, light_draws};
pub use crate::native::Native;
pub use crate::cover::{leaf_list, forest_list, tiles, built_leaves_tile_primitives, narrow_leaves, leaves_fit, full_walk_tests_every_primitive, sorted_numbers_distinct, hits_unions, walk_tests_every_hit_primitive, built_walk_tests_every_hit_primitive, key_count, union_contains, within_transitive, covers, bounds_contain, hierarchy_bounds_contain_primitives, built_bounds_contain_primitives, all_split_on_coded_axes, built_treelets_split_on_coded_axes};
pub use crate::objtext::{LineOutcome, is_space, piece_ranges, word_ranges, part, first_stop, is_digit, unsigned, ascii_lower, lower_eq, mantissa_text, int_text, is_exp, float_text, digits_value, isize_text, zero_text, ref_outcome, line_outcome, obj_outcome, obj_text_loads, obj_text_outcome, signed_index_text, vertex_reference_refused_iff_index_unparsable};
pub use crate::objfile::{ObjVertices, ObjData, obj_polygons, parse_obj, triangle_of, all_triangles, triangles_of, triangle_mesh_of};
pub use crate::scan::{scan, keeps_nearer, without, intersect_is_a_linear_scan};
