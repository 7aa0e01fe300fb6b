use kicad2print::bodies::loose_bodies;
use kicad2print::bores::{
    arc_sides_for, cone_depth_wanted, edge_distance, pad_bore_size, plan_bores, run_for,
    via_bore_diameter, Bore, BoreRules, Hole,
};
use kicad2print::caps::fill_boundary_loops;
use kicad2print::choices::{ChannelProfile, EyeletStyle, OutputFormat, StencilMount, ViaStyle};
use kicad2print::config::Config;
use kicad2print::distance::{twice_from_segment, FAR};
use kicad2print::edges::{edge_kind, edge_table, EdgeKind};
use kicad2print::export::{
    file_label, file_to_show, model_stem, parse_side, plan_outputs, stl_bytes, threemf_parts,
    write_model, write_preview, Bits3, Output, StlTriangle,
};
use kicad2print::health::validate_mesh;
use kicad2print::layout::plan_model;
use kicad2print::mesh::{enclosed, weld, Face, Mesh, Point3, Triangle};
use kicad2print::pcb::{
    bounds_of, keep_side, outline_of, BoundingBox, CopperLayer, Pad, PadShape, PcbData, Point2, Product,
    Side, Trace, Via,
};
use kicad2print::profile::{notes_on_taper, pad_land_size, plan_bands, warnings_for};
use kicad2print::repair::{make_outward_consistent, repair};
use kicad2print::seams::split_t_junctions;
use kicad2print::solid::{
    add_ring_walls, add_tapered_channel, assemble_clamp, assemble_lipped, assemble_plate,
    clean_ring, flip_all, hole_collars, to_steps, Clamp, CollarRules, Lipped, Shape,
};
use kicad2print::stencil::{
    lay_clamp_ring, lay_stencil, rail_tie_rect, stub_for, tie_target, wants_stencil, Rail,
};
use kicad2print::wide::{root_of_quotient, wide_product};
use kicad2print::winding::orient;

fn mm(v: f64) -> i64 {
    (v * 1_000_000.0).round() as i64
}

fn p3(x: i64, y: i64, z: i64) -> Point3 {
    Point3 { x, y, z }
}

fn f(a: usize, b: usize, c: usize) -> Face {
    Face { a, b, c }
}

/// The corners of a tetrahedron, and its sides seen from outside.
fn tetrahedron() -> (Vec<Point3>, Vec<Face>) {
    let points = vec![p3(0, 0, 0), p3(10, 0, 0), p3(0, 10, 0), p3(0, 0, 10)];
    (points, vec![f(0, 2, 1), f(0, 1, 3), f(1, 2, 3), f(0, 3, 2)])
}

fn triangles(points: &[Point3], faces: &[Face]) -> Vec<Triangle> {
    faces.iter().map(|t| Triangle { a: points[t.a], b: points[t.b], c: points[t.c] }).collect()
}

#[test]
fn equal_corners_are_welded() {
    let (points, faces) = tetrahedron();
    let mesh = weld(&triangles(&points, &faces)).unwrap();
    assert_eq!(mesh.points.len(), 4);
    assert_eq!(mesh.triangle_count(), 4);
    let far = Triangle { a: p3(i64::MAX, 0, 0), b: p3(1, 0, 0), c: p3(0, 1, 0) };
    assert!(weld(&vec![far]).is_none());
}

#[test]
fn a_tetrahedron_is_sound() {
    let (points, faces) = tetrahedron();
    let report = validate_mesh(&Mesh { points, faces });
    assert!(report.is_watertight());
    assert_eq!((report.triangles, report.vertices, report.shells), (4, 4, 1));
    assert_eq!((report.genus, report.six_volume), (0, 1000));
    assert_eq!(report.problems(), None);
    assert!(report.summary().starts_with("4 triangles, 4 vertices, 1 shells, genus 0, 0.0 mm³"));
    assert!(report.summary().ends_with(", watertight"));
}

#[test]
fn each_defect_is_reported() {
    let (points, mut faces) = tetrahedron();
    faces[0] = f(0, 1, 2);
    let report = validate_mesh(&Mesh { points, faces });
    assert_eq!(report.flipped_edges, 3);
    assert!(!report.is_watertight());
    assert!(report.problems().unwrap().contains("3 inconsistently-wound edge(s)"));

    let (points, mut faces) = tetrahedron();
    faces.remove(0);
    let report = validate_mesh(&Mesh { points, faces });
    assert_eq!(report.boundary_edges, 3);
    assert_eq!(report.boundary_samples.len(), 3);
    assert!(report.problems().unwrap().starts_with("3 open edge(s)"));

    let (mut points, mut faces) = tetrahedron();
    points.push(p3(-10, -10, 5));
    faces.push(f(0, 1, 4));
    faces.push(f(2, 2, 1));
    let report = validate_mesh(&Mesh { points, faces });
    assert_eq!(report.nonmanifold_edges, 1);
    assert_eq!(report.degenerate_triangles, 1);
    assert!(report.problems().unwrap().contains("1 non-manifold edge(s)"));
}

#[test]
fn a_solid_inside_out_encloses_nothing() {
    let (points, faces) = tetrahedron();
    let faces: Vec<Face> = faces.iter().map(|t| f(t.a, t.c, t.b)).collect();
    assert_eq!(enclosed(&points, &faces), -1000);
    let report = validate_mesh(&Mesh { points, faces });
    assert!(!report.is_watertight());
    assert!(report.problems().unwrap().contains("the mesh encloses no solid"));
}

#[test]
fn faces_are_turned_outward() {
    let (points, faces) = tetrahedron();
    let mixed = vec![faces[0], f(faces[1].a, faces[1].c, faces[1].b), faces[2], faces[3]];
    let turned = orient(&points, &mixed);
    let report = validate_mesh(&Mesh { points: points.clone(), faces: turned });
    assert!(report.is_watertight(), "{}", report.summary());
    let inside_out: Vec<Face> = faces.iter().map(|t| f(t.a, t.c, t.b)).collect();
    let mesh = make_outward_consistent(Mesh { points, faces: inside_out }).unwrap();
    assert!(validate_mesh(&mesh).is_watertight());
}

#[test]
fn a_seam_is_closed_by_splitting() {
    let points = vec![
        p3(0, 0, 0),
        p3(20_000, 0, 0),
        p3(0, 20_000, 0),
        p3(10_000, 0, 0),
        p3(10_000, -10_000, 0),
    ];
    let split = split_t_junctions(&points, vec![f(0, 1, 2), f(3, 0, 4), f(1, 3, 4)]);
    assert_eq!(split, vec![f(0, 3, 2), f(3, 1, 2), f(3, 0, 4), f(1, 3, 4)]);
}

#[test]
fn a_closed_surface_is_not_split() {
    let (mut points, faces) = tetrahedron();
    points.push(p3(5, 0, 0));
    assert_eq!(split_t_junctions(&points, faces.clone()), faces);
}

#[test]
fn a_missing_face_is_filled() {
    let (points, mut faces) = tetrahedron();
    faces.pop();
    let filled = fill_boundary_loops(&points, faces);
    assert_eq!(filled.len(), 4);
    let mesh = make_outward_consistent(Mesh { points, faces: filled }).unwrap();
    assert!(validate_mesh(&mesh).is_watertight());
}

#[test]
fn a_loose_heap_of_triangles_is_repaired() {
    let (points, faces) = tetrahedron();
    let mut heap = triangles(&points, &faces);
    heap.push(Triangle { a: points[0], b: points[0], c: points[1] });
    heap.swap(0, 3);
    let mesh = repair(&heap).unwrap();
    assert_eq!(mesh.faces.len(), 4);
    assert!(validate_mesh(&mesh).is_watertight());
    assert!(repair(&vec![]).unwrap().faces.is_empty());
}

#[test]
fn edges_tell_how_they_are_used() {
    let faces = vec![f(0, 1, 2), f(1, 0, 3), f(0, 1, 4)];
    let table = edge_table(&faces, 5);
    let shared = table.edges.iter().find(|e| (e.lo, e.hi) == (0, 1)).unwrap();
    assert_eq!(shared.uses.len(), 3);
    assert!(matches!(edge_kind(shared), EdgeKind::Crowded));
    let alone = table.edges.iter().find(|e| (e.lo, e.hi) == (1, 2)).unwrap();
    assert!(matches!(edge_kind(alone), EdgeKind::Open));
    let pair = edge_table(&vec![f(0, 1, 2), f(1, 0, 3)], 4);
    let shared = pair.edges.iter().find(|e| (e.lo, e.hi) == (0, 1)).unwrap();
    assert!(matches!(edge_kind(shared), EdgeKind::Paired));
    let flipped = edge_table(&vec![f(0, 1, 2), f(0, 1, 3)], 4);
    let shared = flipped.edges.iter().find(|e| (e.lo, e.hi) == (0, 1)).unwrap();
    assert!(matches!(edge_kind(shared), EdgeKind::Flipped));
}

#[test]
fn all_but_the_largest_body_are_loose() {
    let square = |x: i64, n: i64| {
        vec![
            Triangle { a: p3(x, 0, 0), b: p3(x + n, 0, 0), c: p3(x + n, n, 0) },
            Triangle { a: p3(x, 0, 0), b: p3(x + n, n, 0), c: p3(x, n, 0) },
        ]
    };
    let mut all = square(0, 100_000);
    all.extend(square(200_000, 20_000));
    all.extend(square(400_000, 100));
    let mesh = weld(&all).unwrap();
    let least = 2 * 10_000 * 10_000;
    assert_eq!(loose_bodies(&mesh, least), vec![vec![2, 3]]);
}

#[test]
fn rings_are_cleaned() {
    let ring = vec![(0, 0), (0, 0), (5, 0), (5, 5), (5, 5), (0, 0)];
    assert_eq!(clean_ring(&ring), vec![(0, 0), (5, 0), (5, 5)]);
    assert_eq!((to_steps(149), to_steps(150), to_steps(-50)), (1, 2, 0));
}

#[test]
fn walls_stand_on_every_side_of_a_ring() {
    let ring = vec![(0, 0), (10, 0), (10, 10)];
    let mut out: Vec<Triangle> = Vec::new();
    add_ring_walls(&mut out, &ring, 0, 7, false);
    assert_eq!(out.len(), 6);
    assert_eq!(out[0], Triangle { a: p3(0, 0, 0), b: p3(10, 0, 0), c: p3(10, 0, 7) });
    assert_eq!(out[1], Triangle { a: p3(0, 0, 0), b: p3(10, 0, 7), c: p3(0, 0, 7) });
    let mut inward: Vec<Triangle> = Vec::new();
    add_ring_walls(&mut inward, &ring, 0, 7, true);
    assert_eq!(inward[0], Triangle { a: p3(0, 0, 0), b: p3(10, 0, 7), c: p3(10, 0, 0) });
}

fn square_shape(a: i64, b: i64) -> Shape {
    Shape::new(vec![vec![(a, a), (b, a), (b, b), (a, b)]], vec![0, 1, 2, 0, 2, 3]).unwrap()
}

fn frame(a: i64, b: i64, c: i64, d: i64) -> Shape {
    let rings = vec![
        vec![(a, a), (d, a), (d, d), (a, d)],
        vec![(b, b), (b, c), (c, c), (c, b)],
    ];
    let corners = vec![0, 1, 4, 1, 7, 4, 1, 2, 7, 2, 6, 7, 2, 3, 6, 3, 5, 6, 3, 0, 5, 0, 4, 5];
    Shape::new(rings, corners).unwrap()
}

#[test]
fn a_shape_has_no_corner_beyond_its_rings() {
    assert!(Shape::new(vec![vec![(0, 0), (1, 0), (1, 1)]], vec![0, 1, 3]).is_none());
}

#[test]
fn a_groove_of_two_bands_has_a_floor_walls_and_a_ledge() {
    let mut out: Vec<Triangle> = Vec::new();
    let levels = vec![vec![square_shape(10, 20)], vec![square_shape(5, 25)]];
    add_tapered_channel(&mut out, &levels, &vec![vec![frame(5, 10, 20, 25)]], 0, 100, true);
    assert_eq!(out.len(), 2 + 8 + 8 + 8);
    assert_eq!(out[0].a.z, 0);
    assert!(out.iter().any(|t| t.a.z == 50 && t.b.z == 50 && t.c.z == 50));
    assert!(out.iter().all(|t| [t.a.z, t.b.z, t.c.z].iter().all(|z| [0, 50, 100].contains(z))));
}

#[test]
fn a_plate_with_a_slot_has_a_tunnel() {
    let outer = vec![(0, 0), (100, 0), (100, 100), (0, 100)];
    let slot = Shape::new(vec![vec![(40, 40), (40, 60), (60, 60), (60, 40)]], vec![]).unwrap();
    let mesh = assemble_plate(&vec![frame(0, 40, 60, 100)], &outer, &vec![slot], 8).unwrap();
    let report = validate_mesh(&mesh);
    assert!(report.is_watertight(), "{}", report.summary());
    assert_eq!(report.genus, 1);
    assert_eq!(report.six_volume, 6 * (100 * 100 - 20 * 20) * 8);
}

fn lipped() -> Lipped {
    Lipped {
        top: vec![square_shape(0, 100)],
        underside: vec![square_shape(10, 90)],
        rim: vec![frame(0, 10, 90, 100)],
        outer: vec![(0, 0), (100, 0), (100, 100), (0, 100)],
        inner: vec![(10, 10), (90, 10), (90, 90), (10, 90)],
        slots: vec![],
    }
}

#[test]
fn a_lip_hangs_below_the_plate_and_is_mirrored_for_the_back() {
    let front = assemble_lipped(&lipped(), 8, 20, CopperLayer::FCu).unwrap();
    let report = validate_mesh(&front);
    assert!(report.is_watertight(), "{}", report.summary());
    assert_eq!(report.six_volume, 6 * (100 * 100 * 28 - 80 * 80 * 20));
    assert_eq!(front.points.iter().map(|p| p.z).min(), Some(-20));
    let back = assemble_lipped(&lipped(), 8, 20, CopperLayer::BCu).unwrap();
    assert!(validate_mesh(&back).is_watertight());
    assert_eq!(back.points.iter().map(|p| p.z).max(), Some(20));
    assert_eq!(back.points.iter().map(|p| p.z).min(), Some(-8));
}

#[test]
fn flipping_twice_changes_nothing() {
    let (points, faces) = tetrahedron();
    let list = triangles(&points, &faces);
    let once = flip_all(&list);
    assert_eq!(once[1].c, p3(0, 0, -10));
    assert_eq!(flip_all(&once), list);
}

#[test]
fn a_clamp_ring_is_one_frame() {
    let clamp = Clamp {
        lower: vec![frame(0, 10, 90, 100)],
        ledge: vec![frame(10, 20, 80, 90)],
        upper: vec![frame(0, 20, 80, 100)],
        outer: vec![(0, 0), (100, 0), (100, 100), (0, 100)],
        inner: vec![(10, 10), (90, 10), (90, 90), (10, 90)],
        lip: vec![(20, 20), (80, 20), (80, 80), (20, 80)],
    };
    let mesh = assemble_clamp(&clamp, 30, 40).unwrap();
    let report = validate_mesh(&mesh);
    assert!(report.is_watertight(), "{}", report.summary());
    assert_eq!(report.genus, 1);
    let volume = (100 * 100 - 80 * 80) * 30 + (100 * 100 - 60 * 60) * 10;
    assert_eq!(report.six_volume, 6 * volume);
}

fn pad(x: f64, drill: f64) -> Pad {
    Pad {
        number: "1".into(),
        shape: PadShape::Oval,
        center: Point2 { x: mm(x), y: mm(5.0) },
        width: mm(1.6),
        height: mm(2.0),
        rotation: 0,
        drill: mm(drill),
        drill_h: mm(drill),
        on_fcu: true,
        on_bcu: false,
        net_name: None,
    }
}

fn rules(layer: CopperLayer, lands: bool) -> CollarRules {
    CollarRules {
        layer,
        lands,
        channel_width: mm(1.2),
        pad_hole_diameter: mm(0.8),
        eyelet_diameter: mm(1.0),
        extra: mm(0.05),
    }
}

#[test]
fn only_holes_that_a_trace_reaches_get_a_collar() {
    let trace = Trace {
        layer: CopperLayer::FCu,
        start: Point2 { x: 0, y: mm(5.0) },
        end: Point2 { x: mm(10.0), y: mm(5.0) },
        width: mm(0.25),
    };
    let pads = vec![pad(10.0, 1.0), pad(20.0, 1.0), pad(5.0, 0.0)];
    let via = Via { center: Point2 { x: mm(3.0), y: mm(6.0) }, drill: mm(0.4), net_name: None };
    let found =
        hole_collars(&pads, &vec![via], &vec![trace], &rules(CopperLayer::FCu, false)).unwrap();
    assert_eq!(found.len(), 2);
    assert_eq!(found[0].diameter, mm(1.0 + 2.0 * 0.17 + 2.0 * 0.05) as i128);
    assert_eq!(found[1].center.x, mm(3.0));
    let landed = hole_collars(&pads, &vec![], &vec![], &rules(CopperLayer::FCu, true)).unwrap();
    assert_eq!(landed.len(), 2);
    let back = hole_collars(&pads, &vec![], &vec![], &rules(CopperLayer::BCu, true)).unwrap();
    assert!(back.is_empty());
}

#[test]
fn bores_are_no_smaller_than_asked() {
    let via = Via { center: Point2 { x: 0, y: 0 }, drill: mm(0.4), net_name: None };
    assert_eq!(via_bore_diameter(&via, mm(1.0)), mm(1.0));
    assert_eq!(via_bore_diameter(&via, mm(0.3)), mm(0.4));
    assert_eq!(pad_bore_size(&pad(0.0, 1.0), mm(0.8)), (mm(1.0), mm(1.0)));
    assert_eq!(pad_bore_size(&pad(0.0, 0.5), mm(0.8)), (mm(0.8), mm(0.8)));
}

#[test]
fn lands_below_a_printable_size_are_dropped() {
    assert_eq!(pad_land_size(&pad(0.0, 1.0), mm(-0.2)), Some((mm(1.4) as i128, mm(1.8) as i128)));
    assert_eq!(pad_land_size(&pad(0.0, 1.0), mm(-1.3)), None);
}

#[test]
fn bands_widen_from_floor_to_opening() {
    let c = Config {
        channel_profile: ChannelProfile::Trapezoid,
        channel_width: mm(1.2),
        channel_depth: mm(0.6),
        taper_slice_height: mm(0.2),
        channel_floor_width: mm(0.4),
        ..Config::default()
    };
    let bands = plan_bands(&c);
    assert_eq!(bands.count, 3);
    let widths: Vec<i64> = (0..3).map(|i| bands.width(i)).collect();
    assert_eq!(widths, vec![mm(0.4), mm(0.8), mm(1.2)]);
    assert_eq!(bands.depth(mm(0.6), 0), mm(0.6));
    assert_eq!(bands.depth(mm(0.6), 2), 0);
    let rect = Config { channel_profile: ChannelProfile::Rect, ..c };
    assert_eq!(plan_bands(&rect).count, 1);
    let cone = Config { via_style: ViaStyle::Cone, ..rect };
    assert_eq!(plan_bands(&cone).count, 3);
    assert_eq!(plan_bands(&cone).floor, mm(1.2 - 2.0 * 0.011 * 2.0));
}

#[test]
fn a_deep_groove_and_old_options_are_warned_of() {
    assert!(warnings_for(&Config::default()).is_empty());
    let deep = Config { channel_depth: mm(2.0), substrate_thickness: mm(2.2), ..Config::default() };
    let said = warnings_for(&deep);
    assert!(said[0].contains("channel depth (2.00mm) exceeds half substrate thickness (2.20mm)"));
    let old = Config { generate_via_indents: false, ..Config::default() };
    assert!(warnings_for(&old)[0].contains("have no effect and are deprecated"));
}

#[test]
fn shallow_walls_are_noted() {
    let c = Config { channel_profile: ChannelProfile::Vee, ..Config::default() };
    let notes = notes_on_taper(&c, mm(0.1), mm(30.0), 5);
    assert_eq!(notes.len(), 2);
    assert!(notes[0].contains("vee channel profile"));
    assert!(notes[0].contains("(30° walls, 5 bands)"), "{}", notes[0]);
    assert_eq!(notes_on_taper(&c, mm(0.1), mm(45.0), 5).len(), 1);
}

#[test]
fn cones_go_no_deeper_than_the_groove() {
    assert_eq!(cone_depth_wanted(mm(2.2), mm(0.4), mm(0.6)), mm(0.6));
    assert_eq!(cone_depth_wanted(mm(1.0), mm(0.4), mm(0.6)), mm(0.3));
    assert_eq!(run_for(mm(0.6), mm(1.0)), mm(0.6) as i128);
    assert_eq!(arc_sides_for(mm(0.1)), 16);
    assert_eq!(arc_sides_for(mm(0.6)), 26);
    assert_eq!(arc_sides_for(mm(9.0)), 64);
}

#[test]
fn the_nearest_edge_counts() {
    let at = |x: f64, y: f64| Point2 { x: mm(x), y: mm(y) };
    let outline = vec![at(0.0, 0.0), at(30.0, 0.0), at(30.0, 20.0), at(0.0, 20.0)];
    assert_eq!(edge_distance((mm(10.0), mm(3.0)), &outline), mm(3.0));
}

fn four_ways() -> Vec<(i64, i64)> {
    let one = 1_000_000_000;
    vec![(one, 0), (0, one), (-one, 0), (0, -one)]
}

#[test]
fn mouths_keep_clear_of_other_nets() {
    let hole = |x: f64, net: &str| Hole {
        center: Point2 { x: mm(x), y: mm(10.0) },
        w: mm(1.0),
        h: mm(1.0),
        rotation: 0,
        net: Some(net.to_string()),
    };
    let wanted = BoreRules {
        offset: mm(0.6),
        depth: mm(0.6),
        slope: mm(1.0),
        rim: mm(0.3),
        channel: mm(1.2),
    };
    let edges = vec![mm(9.0), mm(9.0)];
    let dirs = vec![four_ways(), four_ways()];
    let apart = vec![hole(10.0, "A"), hole(12.0, "B")];
    let plan = plan_bores(&apart, &edges, &dirs, &vec![], &wanted).unwrap();
    let (a, b) = (&plan.bores[0].mouth_offsets, &plan.bores[1].mouth_offsets);
    assert_eq!(a[1], mm(0.6), "nothing lies that way");
    assert!(a[0] < mm(0.6) && b[2] < mm(0.6));
    let reach = mm(0.5) + a[0] + mm(0.5) + b[2] + mm(0.3);
    assert!(reach <= mm(2.0), "the rim between the mouths is kept");
    assert_eq!(plan.bores[0].cone_depth, mm(0.6));
    assert_eq!((plan.straight, plan.tight), (0, 0));

    let joined = vec![hole(10.0, "A"), hole(12.0, "A")];
    let plan = plan_bores(&joined, &edges, &dirs, &vec![], &wanted).unwrap();
    assert_eq!(plan.bores[0].mouth_offsets, vec![mm(0.6); 4]);
    assert_eq!(plan.limited, 0);
    assert!(plan.remarks(mm(0.3)).is_empty());

    let crowded = vec![hole(10.0, "A"), hole(11.4, "B")];
    let plan = plan_bores(&crowded, &edges, &dirs, &vec![], &wanted).unwrap();
    assert_eq!(plan.tight, 1);
    assert!(plan.remarks(mm(0.3))[0].contains("1 hole pair(s) on different nets"));

    let edge = plan_bores(&vec![hole(10.0, "A")], &vec![mm(0.5)], &vec![four_ways()], &vec![], &wanted);
    let edge = edge.unwrap();
    assert_eq!(edge.bores[0].mouth_offsets, vec![0; 4]);
    assert_eq!((edge.limited, edge.straight), (1, 1));
}

#[test]
fn a_cone_is_widest_at_its_face() {
    let bore = Bore {
        center: Point2 { x: 0, y: 0 },
        w: mm(1.0),
        h: mm(1.0),
        rotation: 0,
        mouth_offsets: vec![mm(0.6)],
        cone_depth: mm(0.6),
        sides: 1,
    };
    assert_eq!(bore.offset_at(0, 0, 0), mm(0.6));
    assert_eq!(bore.offset_at(0, mm(0.3), 0), mm(0.17 + 0.215));
    assert_eq!(bore.offset_at(0, mm(0.6), 2), mm(0.17 + 0.022));
}

fn board_box() -> BoundingBox {
    BoundingBox { min_x: 0, min_y: 0, max_x: mm(40.0), max_y: mm(20.0) }
}

#[test]
fn a_stencil_wraps_the_board_or_lies_flat_on_it() {
    let c = Config {
        stencil_mount: StencilMount::Lip,
        stencil_fit_clearance: mm(0.2),
        stencil_wall_thickness: mm(1.0),
        channel_width: mm(0.7),
        stencil_slot_clearance: mm(0.1),
        stencil_plating_bus: false,
        ..Config::default()
    };
    let plan = lay_stencil(&board_box(), &c).unwrap();
    assert_eq!((plan.slot_width, plan.land_margin), (mm(0.9), mm(0.2)));
    assert_eq!((plan.plate.min_x, plan.plate.max_x), (mm(-1.2), mm(41.2)));
    assert_eq!((plan.opening.min_y, plan.opening.max_y), (mm(-0.2), mm(20.2)));
    assert!(plan.bus.is_none());
    let ring = Config { stencil_mount: StencilMount::Ring, stencil_plating_bus: true, ..c };
    let plan = lay_stencil(&board_box(), &ring).unwrap();
    assert_eq!(plan.plate, board_box());
    assert_eq!(plan.opening, board_box());
    let bus = plan.bus.unwrap();
    assert_eq!(bus.ties.len(), 2, "a long board has two ties");
    assert!(bus.inner.is_some());
}

#[test]
fn stubs_and_ties_go_to_the_nearest_rail() {
    let rail = Rail { x0: mm(2.0), y0: mm(2.0), x1: mm(38.0), y1: mm(18.0) };
    let stub = stub_for(&vec![(mm(10.0), mm(5.0)), (mm(10.0), mm(4.0))], &rail);
    assert_eq!(stub, Some(((mm(10.0), mm(4.0)), (mm(10.0), mm(2.0)))));
    assert_eq!(stub_for(&vec![], &rail), None);
    let near = vec![(mm(10.0), mm(5.0)), (mm(20.0), mm(2.3))];
    assert_eq!(tie_target(&near, &rail, mm(1.0)), Some((mm(20.0), mm(2.3))));
    assert_eq!(tie_target(&vec![(mm(10.0), mm(5.0))], &rail, mm(1.0)), None);
    let tie = rail_tie_rect(&rail, mm(1.0), mm(2.0), mm(1.0), (mm(20.0), mm(3.0)));
    assert_eq!(
        tie,
        BoundingBox { min_x: mm(19.0), min_y: mm(0.5), max_x: mm(21.0), max_y: mm(3.5) }
    );
}

#[test]
fn a_clamp_ring_grips_the_board() {
    let c = Config {
        stencil_fit_clearance: mm(0.2),
        stencil_wall_thickness: mm(1.0),
        ring_lip_overlap: mm(99.0),
        substrate_thickness: mm(2.2),
        stencil_thickness: mm(0.8),
        ring_lip_height: mm(1.5),
        ..Config::default()
    };
    let ring = lay_clamp_ring(&board_box(), &c).unwrap();
    assert_eq!(ring.outer.min_x, mm(-1.2));
    assert_eq!(ring.wall.max_y, mm(20.2));
    assert_eq!(ring.lip.min_y, mm(9.5), "the lip never closes over the board");
    assert_eq!((ring.plate_top, ring.ring_top), (mm(3.0), mm(4.5)));
}

#[test]
fn only_a_layer_with_traces_has_a_stencil() {
    let t = Trace {
        layer: CopperLayer::FCu,
        start: Point2 { x: 0, y: 0 },
        end: Point2 { x: 1, y: 0 },
        width: 1,
    };
    let pcb = PcbData { traces_fcu: vec![t], ..Default::default() };
    assert!(wants_stencil(&pcb, CopperLayer::FCu));
    assert!(!wants_stencil(&pcb, CopperLayer::BCu));
}

#[test]
fn one_side_keeps_only_its_own_traces() {
    let t = |layer| Trace {
        layer,
        start: Point2 { x: 0, y: 0 },
        end: Point2 { x: 1, y: 0 },
        width: 1,
    };
    let both = || PcbData {
        traces_fcu: vec![t(CopperLayer::FCu)],
        traces_bcu: vec![t(CopperLayer::BCu)],
        ..Default::default()
    };
    let top = keep_side(both(), Side::Top);
    assert_eq!((top.traces_fcu.len(), top.traces_bcu.len()), (1, 0));
    let bottom = keep_side(both(), Side::Bottom);
    assert_eq!((bottom.traces_fcu.len(), bottom.traces_bcu.len()), (0, 1));
}

#[test]
fn a_box_holds_all_its_points() {
    let points = vec![Point2 { x: 3, y: -1 }, Point2 { x: -2, y: 5 }];
    assert_eq!(
        bounds_of(&points),
        Some(BoundingBox { min_x: -2, min_y: -1, max_x: 3, max_y: 5 })
    );
    assert_eq!(bounds_of(&vec![]), None);
}

#[test]
fn an_stl_file_has_eighty_bytes_a_count_and_fifty_bytes_each() {
    let bits = |v: f32| Bits3 { x: v.to_bits(), y: 0, z: 0 };
    let one = StlTriangle { normal: bits(1.0), a: bits(0.0), b: bits(2.0), c: bits(-1.0) };
    let bytes = stl_bytes(&vec![one, one]);
    assert_eq!(bytes.len(), 84 + 2 * 50);
    assert_eq!(bytes[80..84], [2, 0, 0, 0]);
    assert_eq!(bytes[84..88], 1.0f32.to_le_bytes());
    assert_eq!(bytes[84 + 36..84 + 40], (-1.0f32).to_le_bytes());
    assert_eq!(bytes[84 + 48..84 + 50], [0, 0]);
}

#[test]
fn a_model_file_lists_vertices_and_triangles() {
    let (points, faces) = tetrahedron();
    let list = triangles(&points, &faces[..1]);
    let text = write_model(&list);
    assert!(text.contains("<triangle v1=\"0\" v2=\"1\" v3=\"2\"/>"), "{}", text);
    assert_eq!(text.matches("<vertex ").count(), 3);
    let parts = threemf_parts(&list);
    let names: Vec<&str> = parts.iter().map(|p| p.0.as_str()).collect();
    assert_eq!(names, vec!["[Content_Types].xml", "_rels/.rels", "3D/3dmodel.model"]);
    assert_eq!(parts[2].1, text);
}

#[test]
fn a_preview_shows_the_size_of_the_board() {
    let (points, faces) = tetrahedron();
    let page = write_preview(&triangles(&points, &faces), "demo");
    assert!(page.starts_with("<!DOCTYPE html>"));
    assert!(page.contains("demo</strong></p>\n        <p>Triangles: 4</p>"));
}

#[test]
fn outputs_follow_the_format() {
    let stl = plan_outputs(OutputFormat::Stl, true);
    assert!(stl.contains(&Output::Stl) && !stl.contains(&Output::ThreeMf));
    let both = plan_outputs(OutputFormat::Both, true);
    assert!(both.contains(&Output::Stl) && both.contains(&Output::ThreeMf));
    assert_eq!(Output::Stl.file_name("demo"), "demo.stl");
    assert_eq!(Output::ThreeMf.file_name("demo"), "demo.3mf");
    assert_eq!(parse_side("top"), Ok(Side::Top));
    assert!(parse_side("left").is_err());
    assert_eq!(model_stem("demo", None), "demo");
    assert_ne!(model_stem("demo", Some(Side::Top)), model_stem("demo", Some(Side::Bottom)));
    let names = vec!["a.stl".to_string(), "a_preview.html".to_string()];
    assert!(file_to_show(&names).is_some());
    assert_eq!(file_to_show(&vec![]), None);
    assert!(!file_label("a.stl").is_empty());
}

#[test]
fn without_a_guide_none_is_listed() {
    assert_eq!(plan_outputs(OutputFormat::Stl, false), vec![Output::Stl, Output::Preview]);
    assert_eq!(
        plan_outputs(OutputFormat::ThreeM, true),
        vec![Output::ThreeMf, Output::Preview, Output::Guide]
    );
}

#[test]
fn a_triangle_without_area_is_no_piece_of_the_surface() {
    let (points, mut faces) = tetrahedron();
    faces.push(f(0, 0, 1));
    let report = validate_mesh(&Mesh { points, faces });
    assert_eq!((report.triangles, report.vertices, report.degenerate_triangles), (5, 4, 1));
    assert_eq!((report.boundary_edges, report.nonmanifold_edges, report.flipped_edges), (0, 0, 0));
    assert_eq!((report.shells, report.genus), (1, 0));
    assert!(report.is_watertight());
}

#[test]
fn points_that_no_triangle_uses_do_not_count() {
    let (mut points, faces) = tetrahedron();
    points.push(p3(5, 5, 5));
    let report = validate_mesh(&Mesh { points, faces });
    assert_eq!((report.vertices, report.shells, report.genus), (4, 1, 0));
}

#[test]
fn a_second_repair_changes_nothing() {
    let (points, mut faces) = tetrahedron();
    faces[1] = f(1, 0, 3);
    let once = make_outward_consistent(Mesh { points, faces }).unwrap();
    assert!(validate_mesh(&once).is_watertight());
    let (points, faces) = (once.points.clone(), once.faces.clone());
    let twice = make_outward_consistent(once).unwrap();
    assert_eq!(twice.points, points);
    assert_eq!(twice.faces, faces);
}

#[test]
fn one_twisted_piece_leaves_the_others_settled() {
    let (mut points, mut faces) = tetrahedron();
    faces[0] = f(0, 1, 2);
    let n = points.len();
    for k in 0..5i64 {
        points.push(p3(100 + 10 * k, 7 * k * k, 0));
        points.push(p3(100 + 10 * k, 7 * k * k, 10));
    }
    for k in 0..5 {
        let (a, b) = (n + 2 * k, n + 2 * k + 1);
        let (c, d) = if k < 4 { (a + 2, b + 2) } else { (n + 1, n) };
        faces.push(f(a, c, b));
        faces.push(f(b, c, d));
    }
    let out = orient(&points, &faces);
    let own = out.iter().filter(|t| t.a < n).cloned().collect::<Vec<Face>>();
    let report = validate_mesh(&Mesh { points, faces: own });
    assert_eq!((report.triangles, report.flipped_edges), (4, 0));
    assert!(report.is_watertight());
}

#[test]
fn the_same_triangles_are_repaired_alike() {
    let (points, faces) = tetrahedron();
    let heap = triangles(&points, &faces);
    let (a, b) = (repair(&heap).unwrap(), repair(&heap).unwrap());
    assert_eq!((a.points, a.faces), (b.points, b.faces));
}

#[test]
fn only_a_board_with_an_outline_can_be_made() {
    let bare = PcbData { outline: None, ..flat_board() };
    assert_eq!(
        outline_of(&bare, Product::Model).unwrap_err(),
        "No board outline found — cannot generate 3D model"
    );
    assert_eq!(
        outline_of(&bare, Product::Stencil).unwrap_err(),
        "No board outline found — cannot generate stencil"
    );
    assert_eq!(
        outline_of(&bare, Product::ClampRing).unwrap_err(),
        "No board outline found — cannot generate clamp ring"
    );
    assert_eq!(outline_of(&flat_board(), Product::Model).unwrap().len(), 3);
}

fn flat_board() -> PcbData {
    PcbData {
        outline: Some(vec![
            Point2 { x: 0, y: 0 },
            Point2 { x: mm(10.0), y: 0 },
            Point2 { x: 0, y: mm(10.0) },
        ]),
        ..PcbData::default()
    }
}

#[test]
fn distances_are_exact_at_the_far_ends() {
    let m = FAR;
    assert_eq!(twice_from_segment((0, m), (-m, 0), (m, 0)), 2 * m);
    assert_eq!(twice_from_segment((m, -m), (-m, -m), (m, m)), 8_485_281_374);
    assert_eq!(twice_from_segment((m, m), (-m, -m), (-m, -m)), 16_970_562_748);
    assert_eq!(twice_from_segment((3, 4), (0, 0), (0, 0)), 10);
    let most = wide_product(u128::MAX, u128::MAX);
    assert_eq!((most.upper, most.lower), (u128::MAX - 1, 1));
    let small = wide_product(6, 7);
    assert_eq!((small.upper, small.lower), (0, 42));
    assert!(small.at_most(&most) && !most.at_most(&small) && small.at_most(&small));
    assert_eq!(root_of_quotient(1_000_000_000_000_000_000_000, 1_000_000_000_000_000_000_000), 31_622_776_601);
}

#[test]
fn a_stencil_fits_a_board_anywhere_on_a_sheet() {
    let b = BoundingBox { min_x: mm(2100.0), min_y: mm(-2140.0), max_x: mm(2140.0), max_y: mm(-2100.0) };
    let c = Config { stencil_slot_clearance: mm(-0.05), ..Config::default() };
    let s = lay_stencil(&b, &c).unwrap();
    assert_eq!(s.slot_width, c.channel_width - mm(0.1));
    assert_eq!(s.plate, b);
    assert!(lay_clamp_ring(&b, &c).is_some());
    let off = BoundingBox { max_x: mm(2300.0), ..b };
    assert!(lay_stencil(&off, &c).is_none());
}

#[test]
fn retired_settings_shape_nothing() {
    let c = Config { via_style: ViaStyle::Cone, ..Config::default() };
    let d = Config {
        via_style: ViaStyle::Cone,
        eyelet_style: EyeletStyle::Indent,
        indent_depth: mm(1.0),
        generate_via_indents: false,
        ..Config::default()
    };
    let (a, b) = (plan_bands(&c), plan_bands(&d));
    assert_eq!(format!("{a:?}"), format!("{b:?}"));
    let pcb = flat_board();
    let (m, n) = (plan_model(&pcb, &c, &a, 0, true), plan_model(&pcb, &d, &b, 0, true));
    assert!(m.is_some());
    assert_eq!(format!("{m:?}"), format!("{n:?}"));
    let flat = board_box();
    assert_eq!(format!("{:?}", lay_stencil(&flat, &c)), format!("{:?}", lay_stencil(&flat, &d)));
}

#[test]
fn a_piece_that_encloses_nothing_keeps_its_first_triangle() {
    let points = vec![p3(0, 0, 5), p3(10, 0, 5), p3(0, 10, 5)];
    for first in [f(0, 1, 2), f(2, 1, 0)] {
        let faces = vec![first, first];
        let once = make_outward_consistent(Mesh { points: points.clone(), faces }).unwrap();
        assert_eq!(once.faces[0], first);
        assert_eq!(validate_mesh(&once).flipped_edges, 0);
        let faces = once.faces.clone();
        assert_eq!(make_outward_consistent(once).unwrap().faces, faces);
    }
}
