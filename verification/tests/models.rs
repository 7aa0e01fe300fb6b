use geo::algorithm::area::Area;
use geo::{BooleanOps, Coord, LineString, MultiPolygon, Polygon};
use kicad2print::areas::{Figure, Plan, Purpose, Step};
use kicad2print::bores::{measure_ray, plan_bores, Bore};
use kicad2print::bridges::{bridge_loose_bodies, Crossing};
use kicad2print::choices::{ChannelProfile, StencilMount, ViaStyle};
use kicad2print::config::Config;
use kicad2print::health::{validate_mesh, MeshReport};
use kicad2print::layout::plan_model;
use kicad2print::mesh::{Mesh, Point3};
use kicad2print::mouths::{cone_angle, set_up_mouths};
use kicad2print::pcb::{bounds_of, CopperLayer, Pad, PadShape, PcbData, Point2, Trace, Via};
use kicad2print::profile::{
    channel_floor_width, plan_bands, taper_band_count, MAX_TAPER_BANDS,
    MIN_TAPER_FLOOR, VEE_APEX_WIDTH,
};
use kicad2print::slots::{begin_stencil, finish_stencil, lay_slots};
use kicad2print::solid::{
    assemble_lipped, assemble_plate, clean_ring, generate_model, has_bottom_recess, to_steps,
    Lipped, Shape, Solid,
};
use kicad2print::stencil::{lay_stencil, stub_for, Rail};
use std::f64::consts::{PI, TAU};

type Shapes = MultiPolygon<f64>;

fn mm(n: i64) -> f64 {
    n as f64 / 1e6
}

fn nm(v: f64) -> i64 {
    (v * 1e6).round() as i64
}

fn circle(center: Point2, radius: f64, sides: usize) -> Polygon<f64> {
    let (x, y) = (mm(center.x), mm(center.y));
    let ring = (0..=sides).map(|i| {
        let a = TAU * i as f64 / sides as f64;
        Coord { x: x + radius * a.cos(), y: y + radius * a.sin() }
    });
    Polygon::new(LineString::new(ring.collect()), vec![])
}

fn capsule(start: Point2, end: Point2, width: f64) -> Polygon<f64> {
    let r = width / 2.0;
    let (sx, sy, ex, ey) = (mm(start.x), mm(start.y), mm(end.x), mm(end.y));
    if start == end {
        return circle(start, r, 16);
    }
    let across = (ey - sy).atan2(ex - sx) + PI / 2.0;
    let sides = 8usize;
    let mut ring: Vec<Coord<f64>> = Vec::new();
    for i in 0..=sides {
        let a = across - PI * i as f64 / sides as f64;
        ring.push(Coord { x: ex + r * a.cos(), y: ey + r * a.sin() });
    }
    for i in 0..=sides {
        let a = across - PI - PI * i as f64 / sides as f64;
        ring.push(Coord { x: sx + r * a.cos(), y: sy + r * a.sin() });
    }
    ring.push(ring[0]);
    Polygon::new(LineString::new(ring), vec![])
}

fn mouth(bore: &Bore, depth: i64, band: usize) -> Polygon<f64> {
    let ring = (0..=bore.sides).map(|i| {
        let angle = TAU * i as f64 / bore.sides as f64;
        let r = mm(bore.w) / 2.0 + mm(bore.offset_at(i % bore.sides, depth, band));
        Coord { x: mm(bore.center.x) + angle.cos() * r, y: mm(bore.center.y) + angle.sin() * r }
    });
    Polygon::new(LineString::new(ring.collect()), vec![])
}

fn merge(polygons: Vec<Polygon<f64>>) -> Shapes {
    let none = MultiPolygon::new(vec![]);
    polygons.into_iter().fold(none, |all, p| all.union(&MultiPolygon::new(vec![p])))
}

fn step(c: &Coord<f64>) -> (i64, i64) {
    ((c.x * 1e4).round() as i64, (c.y * 1e4).round() as i64)
}

fn ring(line: &LineString<f64>) -> Vec<(i64, i64)> {
    clean_ring(&line.coords().map(step).collect())
}

fn shape(polygon: &Polygon<f64>) -> Shape {
    let mut rings = vec![ring(polygon.exterior())];
    rings.extend(polygon.interiors().iter().map(ring));
    let mut corners: Vec<f64> = Vec::new();
    let mut holes: Vec<usize> = Vec::new();
    for (i, ring) in rings.iter().enumerate() {
        if i > 0 {
            holes.push(corners.len() / 2);
        }
        for p in ring {
            corners.push(p.0 as f64);
            corners.push(p.1 as f64);
        }
    }
    let cut = earcutr::earcut(&corners, &holes, 2).unwrap();
    Shape::new(rings, cut).unwrap()
}

fn shapes(all: &Shapes) -> Vec<Shape> {
    all.iter().map(shape).collect()
}

fn turned(center: Point2, rotation: i64, ring: &[(f64, f64)]) -> Polygon<f64> {
    let (x, y) = (mm(center.x), mm(center.y));
    let a = mm(rotation).to_radians();
    let at = |p: &(f64, f64)| Coord {
        x: x + p.0 * a.cos() - p.1 * a.sin(),
        y: y + p.0 * a.sin() + p.1 * a.cos(),
    };
    Polygon::new(LineString::new(ring.iter().map(at).collect()), vec![])
}

fn oval(w: f64, h: f64, sides: usize) -> Vec<(f64, f64)> {
    let r = w.min(h) / 2.0;
    let (run_x, run_y) = (((w - h) / 2.0).max(0.0), ((h - w) / 2.0).max(0.0));
    let first = if w >= h { -PI / 2.0 } else { 0.0 };
    let mut ring = Vec::new();
    for (sign, start) in [(1.0, first), (-1.0, first + PI)] {
        for i in 0..=sides {
            let a = start + PI * i as f64 / sides as f64;
            ring.push((sign * run_x + r * a.cos(), sign * run_y + r * a.sin()));
        }
    }
    ring
}

fn figure(f: &Figure, board: &Polygon<f64>, bores: &[Bore]) -> Polygon<f64> {
    let big = |n: i128| n as f64 / 1e6;
    match *f {
        Figure::Board => board.clone(),
        Figure::Frame(b) => {
            let at = |x: i64, y: i64| Coord { x: mm(x), y: mm(y) };
            let ring = vec![
                at(b.min_x, b.min_y),
                at(b.max_x, b.min_y),
                at(b.max_x, b.max_y),
                at(b.min_x, b.max_y),
            ];
            Polygon::new(LineString::new(ring), vec![])
        }
        Figure::Disc { center, diameter, sides } => circle(center, big(diameter) / 2.0, sides),
        Figure::Stroke { start, end, width } => capsule(start, end, big(width)),
        Figure::Slab { center, width, height, rotation } => {
            let (w, h) = (big(width) / 2.0, big(height) / 2.0);
            turned(center, rotation, &[(-w, -h), (w, -h), (w, h), (-w, h)])
        }
        Figure::Oval { center, width, height, rotation, sides } => {
            turned(center, rotation, &oval(big(width), big(height), sides))
        }
        Figure::Mouth { bore, depth, band } => mouth(&bores[bore], depth, band),
    }
}

/// Draws the steps of a plan that are not drawn yet.
fn draw(plan: &Plan, board: &Polygon<f64>, bores: &[Bore], areas: &mut Vec<Shapes>) {
    for step in &plan.steps[areas.len()..] {
        let area = match step {
            Step::Merge(list) => merge(list.iter().map(|f| figure(f, board, bores)).collect()),
            Step::Union(a, b, _) => areas[*a].union(&areas[*b]),
            Step::Intersection(a, b, _) => areas[*a].intersection(&areas[*b]),
            Step::Difference(a, b, _) => areas[*a].difference(&areas[*b]),
        };
        areas.push(area);
    }
}

fn rim(area: &Shapes) -> Vec<Shape> {
    let kept = area.0.iter().filter(|p| p.unsigned_area() > 1e-6).cloned();
    shapes(&MultiPolygon::new(kept.collect()))
}

fn board_polygon(pcb: &PcbData) -> Polygon<f64> {
    let outline = pcb.outline.as_ref().unwrap();
    assert_eq!(bounds_of(outline).map(|b| (b.min_x, b.min_y)), Some((0, 0)));
    let corners = outline.iter().map(|p| Coord { x: mm(p.x), y: mm(p.y) }).collect();
    Polygon::new(LineString::new(corners), vec![])
}

fn mouths(pcb: &PcbData, config: &Config) -> Vec<Bore> {
    let outline = pcb.outline.as_ref().unwrap();
    let slope = nm(mm(cone_angle(config.cone_angle)).to_radians().tan());
    let task = set_up_mouths(pcb, config, outline, slope).unwrap();
    let unit = |v: f64| (v * 1e9).round() as i64;
    let around = |sides: &usize| {
        let angles = (0..*sides).map(|k| TAU * k as f64 / *sides as f64);
        angles.map(|a| (unit(a.cos()), unit(a.sin()))).collect::<Vec<(i64, i64)>>()
    };
    let dirs: Vec<Vec<(i64, i64)>> = task.sides.iter().map(around).collect();
    plan_bores(&task.holes, &task.edges, &dirs, &task.traces, &task.rules).unwrap().bores
}

/// The solid of a board whose corner is at the origin.
fn model(pcb: &PcbData, config: &Config) -> Mesh {
    let outline = pcb.outline.as_ref().unwrap();
    let board = board_polygon(pcb);
    let bores =
        if config.via_style == ViaStyle::Cone { mouths(pcb, config) } else { Vec::new() };
    let recessed = has_bottom_recess(&pcb.traces_bcu, config.via_style == ViaStyle::Cone);
    let plan = plan_model(pcb, config, &plan_bands(config), bores.len(), recessed).unwrap();
    let mut areas = Vec::new();
    draw(&plan.plan, &board, &bores, &mut areas);
    let all = |list: &Vec<usize>| list.iter().map(|i| shapes(&areas[*i])).collect();
    let rims = |list: &Vec<usize>| list.iter().map(|i| rim(&areas[*i])).collect();
    let solid = Solid {
        outline: outline.iter().map(|p| step(&Coord { x: mm(p.x), y: mm(p.y) })).collect(),
        top: shapes(&areas[plan.top]),
        bottom: shapes(&areas[plan.bottom]),
        upper: all(&plan.upper),
        upper_ledges: rims(&plan.upper_ledges),
        lower: all(&plan.lower),
        lower_ledges: rims(&plan.lower_ledges),
        holes: shapes(&areas[plan.holes]),
    };
    let thickness = to_steps(config.substrate_thickness);
    let depth = to_steps(config.channel_depth);
    generate_model(&solid, thickness, depth, recessed).expect("model builds")
}

fn pt(x: f64, y: f64) -> Point2 {
    Point2 { x: nm(x), y: nm(y) }
}

fn trace(layer: CopperLayer, a: (f64, f64), b: (f64, f64)) -> Trace {
    Trace { layer, start: pt(a.0, a.1), end: pt(b.0, b.1), width: nm(0.25) }
}

fn tht_pad(x: f64, y: f64, drill: f64) -> Pad {
    Pad {
        center: pt(x, y),
        drill: nm(drill),
        drill_h: nm(drill),
        number: "1".into(),
        net_name: Some("N1".into()),
        width: nm(1.6),
        height: nm(1.6),
        shape: PadShape::Circle,
        rotation: 0,
        on_fcu: true,
        on_bcu: true,
    }
}

/// A small two-layer board: a rectangular outline, one trace per layer, two through-hole
/// pads and one via, all apart from each other.
fn test_board() -> PcbData {
    PcbData {
        outline: Some(vec![pt(0.0, 0.0), pt(30.0, 0.0), pt(30.0, 20.0), pt(0.0, 20.0)]),
        traces_fcu: vec![trace(CopperLayer::FCu, (5.0, 5.0), (25.0, 5.0))],
        traces_bcu: vec![trace(CopperLayer::BCu, (5.0, 15.0), (25.0, 15.0))],
        vias: vec![Via { center: pt(15.0, 10.0), drill: nm(0.4), net_name: Some("N1".into()) }],
        pads: vec![tht_pad(5.0, 5.0, 1.0), tht_pad(25.0, 5.0, 1.0)],
        ..Default::default()
    }
}

fn cfg(profile: ChannelProfile) -> Config {
    Config {
        channel_profile: profile,
        channel_width: nm(1.2),
        channel_depth: nm(0.6),
        substrate_thickness: nm(2.2),
        generate_pad_lands: false,
        ..Config::default()
    }
}

const TEST_BOARD_HOLES: i128 = 3;

fn assert_watertight(mesh: &Mesh, what: &str) -> MeshReport {
    let report = validate_mesh(mesh);
    assert!(
        report.is_watertight(),
        "{what}: mesh is not watertight — {}\n{}",
        report.summary(),
        report.problems().unwrap_or_default()
    );
    report
}

fn assert_sound(mesh: &Mesh, what: &str) -> MeshReport {
    let report = assert_watertight(mesh, what);
    assert_eq!(
        report.genus,
        TEST_BOARD_HOLES,
        "{what}: expected {TEST_BOARD_HOLES} through-holes in the topology, got genus {} ({})",
        report.genus,
        report.summary()
    );
    report
}

const PROFILES: [ChannelProfile; 3] =
    [ChannelProfile::Rect, ChannelProfile::Trapezoid, ChannelProfile::Vee];

#[test]
fn rect_profile_produces_a_watertight_solid_with_every_hole_open() {
    assert_sound(&model(&test_board(), &cfg(ChannelProfile::Rect)), "rect");
}

#[test]
fn trapezoid_profile_produces_a_watertight_solid_with_every_hole_open() {
    assert_sound(&model(&test_board(), &cfg(ChannelProfile::Trapezoid)), "trapezoid");
}

#[test]
fn vee_profile_produces_a_watertight_solid_with_every_hole_open() {
    assert_sound(&model(&test_board(), &cfg(ChannelProfile::Vee)), "vee");
}

#[test]
fn tapered_profiles_remove_less_material_than_a_rectangular_one() {
    let rect = validate_mesh(&model(&test_board(), &cfg(ChannelProfile::Rect)));
    let trap_cfg = Config { channel_floor_width: nm(0.8), ..cfg(ChannelProfile::Trapezoid) };
    let trap = validate_mesh(&model(&test_board(), &trap_cfg));
    let vee = validate_mesh(&model(&test_board(), &cfg(ChannelProfile::Vee)));
    assert!(
        trap.six_volume > rect.six_volume,
        "trapezoid ({}) should leave more material than rect ({})",
        trap.six_volume,
        rect.six_volume
    );
    assert!(
        vee.six_volume > trap.six_volume,
        "vee ({}) should leave more material than trapezoid ({})",
        vee.six_volume,
        trap.six_volume
    );
}

#[test]
fn pad_lands_stay_watertight_when_merged_into_a_tapered_network() {
    let config = Config { generate_pad_lands: true, ..cfg(ChannelProfile::Vee) };
    assert_watertight(&model(&test_board(), &config), "tapered network with pad lands");
}

#[test]
fn validator_flags_an_open_surface() {
    let mut mesh = model(&test_board(), &cfg(ChannelProfile::Rect));
    mesh.faces.pop();
    let report = validate_mesh(&mesh);
    assert!(!report.is_watertight(), "removing a face must break watertightness");
    assert_eq!(report.boundary_edges, 3, "a missing triangle leaves three open edges");
}

#[test]
fn collar_radius_does_not_coincide_with_the_channel_half_width() {
    let mut pcb = test_board();
    pcb.pads = vec![tht_pad(5.0, 5.0, 0.9), tht_pad(25.0, 5.0, 0.9)];
    for profile in PROFILES {
        let config = Config { channel_width: nm(1.2), ..cfg(profile) };
        assert_watertight(&model(&pcb, &config), profile.name());
    }
}

#[test]
fn rect_profile_without_pad_lands_is_still_watertight() {
    let config = Config { generate_pad_lands: false, ..cfg(ChannelProfile::Rect) };
    assert_watertight(&model(&test_board(), &config), "rect without pad lands");
}

#[test]
fn model_generation_is_deterministic() {
    let pcb = test_board();
    for style in [ViaStyle::Straight, ViaStyle::Cone] {
        let config = Config { via_style: style, ..cfg(ChannelProfile::Vee) };
        let first = model(&pcb, &config);
        for _ in 0..3 {
            let again = model(&pcb, &config);
            assert_eq!(
                first.faces.len(),
                again.faces.len(),
                "{}: triangle count varied between identical runs",
                style.name()
            );
        }
    }
}

#[test]
fn cone_barrels_produce_a_watertight_solid() {
    for profile in PROFILES {
        let config = Config { via_style: ViaStyle::Cone, ..cfg(profile) };
        assert_sound(&model(&test_board(), &config), profile.name());
    }
}

#[test]
fn a_clearance_flattened_cone_still_grows_between_bands() {
    let bore = Bore {
        center: pt(0.0, 0.0),
        w: nm(1.0),
        h: nm(1.0),
        rotation: 0,
        mouth_offsets: vec![0; 16],
        cone_depth: 0,
        sides: 16,
    };
    let offs: Vec<i64> = (0..6).map(|b| bore.offset_at(0, 0, b)).collect();
    for w in offs.windows(2) {
        assert!(w[1] > w[0], "footprint must grow strictly between bands even with no cone: {offs:?}");
    }
    assert!(
        offs.last().unwrap() - offs.first().unwrap() < nm(0.3),
        "the growth floor must stay far below min_rim_mm so it cannot close a clearance gap"
    );
}

#[test]
fn a_neighbour_only_constrains_the_direction_it_lies_in() {
    let one = 1_000_000_000;
    let east = (nm(2.0), 0);
    let toward = measure_ray((0, 0), (one, 0), east, nm(0.5));
    let away = measure_ray((0, 0), (-one, 0), east, nm(0.5));
    let across = measure_ray((0, 0), (0, one), east, nm(0.5));
    assert!(matches!(toward, Some(l) if (l - nm(1.5)).abs() <= 1), "toward: {toward:?}");
    assert_eq!(away, None, "a neighbour behind must not constrain this direction");
    assert_eq!(across, None, "a neighbour off to the side must not constrain either");
    assert_eq!(measure_ray((0, 0), (one, 0), (nm(0.2), 0), nm(0.5)), Some(0));
}

#[test]
fn a_crowded_mouth_goes_oval_rather_than_shrinking_all_round() {
    let mut pcb = test_board();
    let mut a = tht_pad(10.0, 10.0, 1.0);
    a.net_name = Some("NET_A".into());
    let mut b = tht_pad(11.6, 10.0, 1.0);
    b.net_name = Some("NET_B".into());
    pcb.pads = vec![a, b];
    pcb.traces_fcu.clear();
    pcb.traces_bcu.clear();
    pcb.vias.clear();

    let config = Config { via_style: ViaStyle::Cone, ..cfg(ChannelProfile::Vee) };
    let bores = mouths(&pcb, &config);
    assert_eq!(bores.len(), 2);
    for bore in &bores {
        let min = *bore.mouth_offsets.iter().min().unwrap();
        let max = *bore.mouth_offsets.iter().max().unwrap();
        assert!(max - min > nm(0.05), "mouth should be oval, not uniform: min={min} max={max}");
    }
    assert_watertight(&model(&pcb, &config), "crowded cone mouths");
}

#[test]
fn channel_floor_width_is_clamped_into_a_printable_range() {
    let base = cfg(ChannelProfile::Trapezoid);
    assert_eq!(channel_floor_width(&cfg(ChannelProfile::Rect)), base.channel_width);
    let wide = Config { channel_floor_width: nm(99.0), ..cfg(ChannelProfile::Trapezoid) };
    assert_eq!(channel_floor_width(&wide), wide.channel_width);
    let thin = Config { channel_floor_width: nm(0.01), ..cfg(ChannelProfile::Trapezoid) };
    assert_eq!(channel_floor_width(&thin), MIN_TAPER_FLOOR);
    assert_eq!(MIN_TAPER_FLOOR, nm(0.4));
}

#[test]
fn vee_actually_converges_and_differs_from_trapezoid() {
    let vee = cfg(ChannelProfile::Vee);
    let trap = cfg(ChannelProfile::Trapezoid);
    assert_eq!(channel_floor_width(&vee), VEE_APEX_WIDTH);
    assert!(
        channel_floor_width(&vee) < channel_floor_width(&trap),
        "a vee must converge further than a trapezoid's flat floor"
    );
    let vee_tweaked = Config { channel_floor_width: nm(0.6), ..cfg(ChannelProfile::Vee) };
    assert_eq!(channel_floor_width(&vee_tweaked), VEE_APEX_WIDTH);
    assert_eq!(VEE_APEX_WIDTH, nm(0.1));

    let r_vee = assert_watertight(&model(&test_board(), &vee), "vee");
    let r_trap = validate_mesh(&model(&test_board(), &trap));
    assert!(
        r_vee.six_volume > r_trap.six_volume,
        "a converging vee removes less material than a flat-floored trapezoid"
    );
}

#[test]
fn vee_apex_never_exceeds_the_opening() {
    let narrow = Config { channel_width: nm(0.05), ..cfg(ChannelProfile::Vee) };
    assert_eq!(channel_floor_width(&narrow), nm(0.05));
}

#[test]
fn taper_band_count_is_bounded() {
    assert_eq!(taper_band_count(nm(0.6), nm(0.2)), 3);
    assert_eq!(taper_band_count(nm(0.0), nm(0.2)), 1, "no depth means no taper");
    assert_eq!(taper_band_count(nm(0.6), nm(0.0)), 1, "no slice height means no taper");
    assert_eq!(
        taper_band_count(nm(100.0), nm(0.01)),
        MAX_TAPER_BANDS,
        "band count must stay bounded — each band is a boolean op"
    );
    assert_eq!(MAX_TAPER_BANDS, 8);
}

#[test]
fn the_board_comes_out_at_its_size() {
    let mesh = model(&test_board(), &cfg(ChannelProfile::Rect));
    let far = |f: fn(&Point3) -> i64| {
        (mesh.points.iter().map(f).min().unwrap(), mesh.points.iter().map(f).max().unwrap())
    };
    assert_eq!(far(|p| p.x), (0, 300_000));
    assert_eq!(far(|p| p.y), (0, 200_000));
    assert_eq!(far(|p| p.z), (0, 22_000));
}

/// The stencil for the top of a board whose corner is at the origin.
fn stencil(pcb: &PcbData, config: &Config) -> (Mesh, Vec<Shapes>) {
    let bounds = bounds_of(pcb.outline.as_ref().unwrap()).unwrap();
    let board = board_polygon(pcb);
    let s = lay_stencil(&bounds, config).unwrap();
    let mut plan = begin_stencil(pcb, config, CopperLayer::FCu, &s);
    let mut areas = Vec::new();
    draw(&plan.plan, &board, &[], &mut areas);
    let mut stubs = Vec::new();
    if let Some(bus) = &s.bus {
        for island in areas[plan.grooves].iter() {
            let edge = island.exterior().coords().map(|c| (nm(c.x), nm(c.y))).collect();
            stubs.extend(stub_for(&edge, &bus.rail));
        }
    }
    let left = lay_slots(&mut plan, &s, &stubs, config.bus_width);
    draw(&plan.plan, &board, &[], &mut areas);
    assert_eq!(left.is_some(), config.stencil_plating_bus);
    let ties = match (left, &s.bus) {
        (Some(left), Some(bus)) => {
            let crossing = Crossing {
                rail: bus.rail,
                bus_width: config.bus_width,
                tie_width: config.bus_tie_width,
                pad: bus.tie_pad,
            };
            let bridges = bridge_loose_bodies(&shapes(&areas[left]), (0, 0), &crossing).unwrap();
            assert_eq!(bridges.unbridged, 0);
            bridges.ties
        }
        _ => Vec::new(),
    };
    let done = finish_stencil(&mut plan, &s, &ties, config.stencil_mount);
    draw(&plan.plan, &board, &[], &mut areas);
    let frame = |b| ring(figure(&Figure::Frame(b), &board, &[]).exterior());
    let thickness = to_steps(config.stencil_thickness);
    let slots = shapes(&areas[done.slots]);
    let mesh = match done.lip {
        None => {
            assemble_plate(&shapes(&areas[done.face]), &frame(s.plate), &slots, thickness)
        }
        Some((under, rim)) => {
            let lipped = Lipped {
                top: shapes(&areas[done.face]),
                underside: shapes(&areas[under]),
                rim: shapes(&areas[rim]),
                outer: frame(s.plate),
                inner: frame(s.opening),
                slots,
            };
            let wall = to_steps(config.stencil_wall_height);
            assemble_lipped(&lipped, thickness, wall, CopperLayer::FCu)
        }
    };
    (mesh.expect("stencil builds"), vec![areas[done.slots].clone(), areas[done.face].clone()])
}

#[test]
fn stencils_are_watertight_however_they_are_held() {
    for mount in [StencilMount::Lip, StencilMount::Ring] {
        let config = Config { stencil_mount: mount, ..cfg(ChannelProfile::Rect) };
        let (mesh, areas) = stencil(&test_board(), &config);
        assert_watertight(&mesh, mount.name());
        assert!(areas[0].unsigned_area() > 0.0);
        assert!(areas[0].intersection(&areas[1]).unsigned_area() < 1e-6);
    }
}

#[test]
fn a_plating_bus_opens_more_of_the_plate() {
    let plain = stencil(&test_board(), &cfg(ChannelProfile::Rect)).1;
    let config = Config { stencil_plating_bus: true, ..cfg(ChannelProfile::Rect) };
    let bus = stencil(&test_board(), &config).1;
    assert!(bus[0].unsigned_area() > plain[0].unsigned_area() + 50.0);
}

#[test]
fn the_areas_of_a_model_make_up_the_board() {
    let pcb = test_board();
    let config = cfg(ChannelProfile::Trapezoid);
    let bands = plan_bands(&config);
    let plan = plan_model(&pcb, &config, &bands, 0, true).unwrap();
    let mut areas = Vec::new();
    draw(&plan.plan, &board_polygon(&pcb), &[], &mut areas);
    let size = |i: usize| areas[i].unsigned_area();
    assert_eq!(plan.upper.len(), bands.count);
    assert_eq!(plan.upper_ledges.len(), bands.count - 1);
    let top = size(plan.top) + size(*plan.upper.last().unwrap()) + size(plan.holes);
    assert!((top - 600.0).abs() < 1e-3, "{top}");
    let bottom = size(plan.bottom) + size(*plan.lower.last().unwrap()) + size(plan.holes);
    assert!((bottom - 600.0).abs() < 1e-3, "{bottom}");
    for w in plan.upper.windows(2) {
        assert!(size(w[0]) < size(w[1]));
    }
}

#[test]
fn parts_out_of_reach_have_no_plan() {
    let mut pcb = test_board();
    pcb.vias[0].center = pt(5000.0, 0.0);
    let config = cfg(ChannelProfile::Rect);
    assert!(plan_model(&pcb, &config, &plan_bands(&config), 0, true).is_none());
    assert!(plan_model(&pcb, &config, &plan_bands(&config), 1, true).is_some());
}

#[test]
fn steps_say_what_they_are_for() {
    assert_eq!(Purpose::HolesAndCutouts.name(), "holes + cutouts");
    assert_eq!(Purpose::Network(CopperLayer::BCu).name(), "B.Cu network");
    assert_eq!(Purpose::SlotsClip.name(), "stencil slots ∩ clip region");
}

#[test]
fn a_piece_that_the_rail_cuts_off_is_tied() {
    let square = |x: i64, y: i64, side: i64| {
        let ring = vec![(x, y), (x + side, y), (x + side, y + side), (x, y + side)];
        Shape::new(vec![ring], vec![0, 1, 2, 0, 2, 3]).unwrap()
    };
    let rail = Rail { x0: nm(10.0), y0: nm(10.0), x1: nm(30.0), y1: nm(30.0) };
    let crossing = Crossing { rail, bus_width: nm(1.0), tie_width: nm(2.0), pad: nm(1.0) };
    let face =
        vec![square(0, 0, 95_000), square(105_000, 150_000, 20_000), square(180_000, 180_000, 5_000)];
    let found = bridge_loose_bodies(&face, (0, 0), &crossing).unwrap();
    assert_eq!(found.ties.len(), 1, "a sliver is let go");
    assert_eq!(found.unbridged, 0);
    let tie = found.ties[0];
    assert_eq!((tie.min_x, tie.max_x), (nm(8.5), nm(11.5)));
    assert_eq!((tie.min_y, tie.max_y), (nm(14.0), nm(16.0)));
    let inner = vec![square(0, 0, 95_000), square(180_000, 180_000, 20_000)];
    let found = bridge_loose_bodies(&inner, (0, 0), &crossing).unwrap();
    assert_eq!((found.ties.len(), found.unbridged), (0, 1));
    let whole = bridge_loose_bodies(&vec![square(0, 0, 95_000)], (0, 0), &crossing).unwrap();
    assert_eq!((whole.ties.len(), whole.unbridged), (0, 0));
}

#[test]
fn a_cone_is_neither_too_flat_nor_too_steep() {
    assert_eq!(cone_angle(nm(5.0)), nm(15.0));
    assert_eq!(cone_angle(nm(45.0)), nm(45.0));
    assert_eq!(cone_angle(nm(120.0)), nm(89.0));
}

#[test]
fn mouths_are_planned_from_the_holes_of_the_board() {
    let pcb = test_board();
    let config = Config { via_style: ViaStyle::Cone, ..cfg(ChannelProfile::Rect) };
    let task = set_up_mouths(&pcb, &config, pcb.outline.as_ref().unwrap(), 1_000_000).unwrap();
    assert_eq!(task.holes.len(), 3);
    assert_eq!(task.edges, vec![nm(5.0), nm(5.0), nm(10.0)]);
    assert_eq!(task.sides.len(), 3);
    assert_eq!(task.traces.len(), 2);
    assert_eq!((task.rules.depth, task.rules.offset), (nm(0.6), nm(0.6)));
    assert!(set_up_mouths(&pcb, &config, pcb.outline.as_ref().unwrap(), 0).is_none());
}
