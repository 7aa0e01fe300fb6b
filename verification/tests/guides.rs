use kicad2print::choices::Mode;
use kicad2print::config::{AssemblyStep, Config};
use kicad2print::drawing::{build_parts_table, find_board_box, html_escape, render_assembly_svg};
use kicad2print::guide::{write_guide, write_page};
use kicad2print::pcb::{CopperLayer, Footprint, Pad, PadShape, PcbData, Point2, Trace};
use kicad2print::probe::collect_continuity;
use kicad2print::steps::{
    choose_steps, default_steps_copper_wire, default_steps_electrolysis, plating_stats,
};

fn mm(v: f64) -> i64 {
    (v * 1_000_000.0).round() as i64
}

fn at(x: f64, y: f64) -> Point2 {
    Point2 { x: mm(x), y: mm(y) }
}

fn pad(number: &str, x: f64, net: &str) -> Pad {
    Pad {
        number: number.into(),
        shape: PadShape::Circle,
        center: at(x, 5.0),
        width: mm(1.6),
        height: mm(1.6),
        rotation: 0,
        drill: mm(1.0),
        drill_h: mm(1.0),
        on_fcu: true,
        on_bcu: true,
        net_name: Some(net.into()),
    }
}

fn board() -> PcbData {
    PcbData {
        outline: Some(vec![at(0.0, 0.0), at(30.0, 0.0), at(30.0, 20.0), at(0.0, 20.0)]),
        traces_fcu: vec![Trace {
            layer: CopperLayer::FCu,
            start: at(5.0, 5.0),
            end: at(25.0, 5.0),
            width: mm(0.25),
        }],
        footprints: vec![
            Footprint {
                reference: "R1".into(),
                value: "10k <1%>".into(),
                position: at(5.0, 5.0),
                pads: vec![pad("1", 5.0, "N1")],
            },
            Footprint {
                reference: "J1".into(),
                value: "plug".into(),
                position: at(25.0, 5.0),
                pads: vec![pad("1", 25.0, "N1")],
            },
        ],
        pads: vec![pad("1", 5.0, "N1"), pad("1", 25.0, "N1")],
        ..Default::default()
    }
}

#[test]
fn marks_of_the_page_are_escaped() {
    assert_eq!(html_escape("a<b>&\"c\""), "a&lt;b&gt;&amp;&quot;c&quot;");
    assert_eq!(html_escape("plain"), "plain");
}

#[test]
fn the_box_of_a_board_is_its_outline() {
    let b = find_board_box(&board());
    assert_eq!((b.min_x, b.min_y, b.max_x, b.max_y), (0, 0, mm(30.0), mm(20.0)));
}

#[test]
fn steps_of_both_ways_of_building() {
    let wire = default_steps_copper_wire(&board());
    assert!(!wire.is_empty());
    assert!(wire.iter().any(|s| s.wire_layer.as_deref() == Some("F.Cu")));
    assert!(!wire.iter().any(|s| s.wire_layer.as_deref() == Some("B.Cu")));
    let with = default_steps_electrolysis(&board(), true, true, "Plate it.");
    let without = default_steps_electrolysis(&board(), false, false, "Plate it.");
    assert!(with.iter().any(|s| s.instruction.contains("Plate it.")));
    assert_ne!(format!("{with:?}"), format!("{without:?}"));
}

#[test]
fn own_steps_take_the_place_of_the_usual_ones() {
    let own = AssemblyStep {
        name: "Mine".into(),
        components: vec!["R1".into()],
        wire_layer: None,
        instruction: "Do it.".into(),
    };
    let c = Config { assembly_steps: vec![own], ..Config::default() };
    let steps = choose_steps(&board(), &c, mm(20.0));
    assert_eq!(steps.len(), 1);
    assert_eq!(steps[0].name, "Mine");
    let usual = choose_steps(&board(), &Config::default(), mm(20.0));
    assert_eq!(format!("{usual:?}"), format!("{:?}", default_steps_copper_wire(&board())));
    let plated = Config { mode: Mode::Electrolysis, ..Config::default() };
    assert_ne!(
        format!("{:?}", choose_steps(&board(), &plated, mm(20.0))),
        format!("{usual:?}")
    );
}

#[test]
fn plating_is_worked_out_from_the_grooves() {
    let s = plating_stats(mm(100.0), mm(1.0), mm(0.5));
    assert_eq!(s.length, mm(100.0));
    assert_eq!(s.projected, 1_000_000, "a square centimetre");
    assert_eq!(s.wetted, 2_000_000, "floor and two walls");
    assert!(s.current > 0 && s.minutes > 0);
    let none = plating_stats(0, mm(1.0), mm(0.5));
    assert_eq!((none.projected, none.wetted, none.current), (0, 0, 0));
}

#[test]
fn the_parts_of_a_step_are_listed() {
    let step = AssemblyStep {
        name: "Place".into(),
        components: vec!["R1".into()],
        wire_layer: None,
        instruction: String::new(),
    };
    let table = build_parts_table(&board(), &step);
    assert!(table.contains("R1") && table.contains("10k &lt;1%&gt;"), "{}", table);
    assert!(!table.contains("plug"));
}

#[test]
fn a_step_is_drawn() {
    let steps = default_steps_copper_wire(&board());
    let svg = render_assembly_svg(&board(), 0, &steps);
    assert!(svg.starts_with("<svg") && svg.trim_end().ends_with("</svg>"));
}

#[test]
fn pads_of_a_net_are_probed_together() {
    let data = collect_continuity(&board(), &None).unwrap();
    assert_eq!(data.total_nets, 1);
    assert!(data.pads_js.contains("R1") && data.pads_js.contains("J1"));
    assert!(data.board_img.is_empty());
    let with = collect_continuity(&board(), &Some("QUJD".to_string())).unwrap();
    assert!(with.board_img.contains("QUJD"));
}

#[test]
fn the_guide_is_a_page() {
    let page = write_guide(&board(), &Config::default(), mm(20.0), "demo", &None, &None).unwrap();
    assert!(page.starts_with("<!DOCTYPE html>"), "{}", &page[..60]);
    assert!(page.contains("demo"));
    for step in choose_steps(&board(), &Config::default(), mm(20.0)) {
        assert!(page.contains(&html_escape(&step.name)), "{}", step.name);
    }
    let steps = default_steps_copper_wire(&board());
    let own = write_page(&board(), &steps, "demo", &None, &None);
    assert_eq!(own, page);
}

#[test]
fn a_bus_is_ground_off_only_where_there_is_one() {
    let bare = PcbData { footprints: vec![], ..board() };
    let names = |stencil: bool, bus: bool| -> Vec<String> {
        let c = Config {
            mode: Mode::Electrolysis,
            generate_stencil: stencil,
            stencil_plating_bus: bus,
            ..Config::default()
        };
        choose_steps(&bare, &c, mm(20.0)).into_iter().map(|s| s.name).collect()
    };
    let short = ["Prime front-copper grooves (F.Cu)", "Electroplate copper", "Test traces"];
    assert_eq!(names(true, false), short);
    assert_eq!(names(false, true), short);
    assert_eq!(
        names(true, true),
        [
            "Prime front-copper grooves (F.Cu)",
            "Electroplate copper",
            "Grind off the plating bus",
            "Test traces"
        ]
    );
}

#[test]
fn only_plating_needs_figures() {
    let wire = Config { channel_depth: i64::MIN, ..Config::default() };
    assert_eq!(
        format!("{:?}", choose_steps(&board(), &wire, i64::MAX)),
        format!("{:?}", default_steps_copper_wire(&board()))
    );
    let own = AssemblyStep {
        name: "Mine".into(),
        components: vec![],
        wire_layer: None,
        instruction: "Do it.".into(),
    };
    let c = Config {
        mode: Mode::Electrolysis,
        assembly_steps: vec![own],
        channel_width: -1,
        ..Config::default()
    };
    assert_eq!(choose_steps(&board(), &c, -1).len(), 1);
}
