use kicad2print::board::{remove_edge_cuts_lines, remove_matching_graphics};
use kicad2print::graphics::{add_graphic, delete_graphic, read_list, Graphic};
use kicad2print::lookup::read_kicad_section;
use kicad2print::netlist::{read_parts, read_pin_nets, NetlistError};
use kicad2print::outline::{
    describe_new_outline, get_board_outline, parse_edge_cuts_bounds, set_board_outline,
    update_all_zone_polygons,
};
use kicad2print::parts::{
    add_component, create_footprint, delete_component, get_component, kicad_mod_to_pcb_footprint,
    write_footprint_made, CreateFootprintParams, NewPart, PadSpec,
};
use kicad2print::cleanup::remove_orphaned_segments;
use kicad2print::pcb::BoundingBox;
use kicad2print::pins::extract_instance_pins;
use kicad2print::replace::{rebuild_symbol_instance, replace_symbol, SymbolError};
use kicad2print::sexpr::{splice_out_ranges, Span};
use kicad2print::spots::{
    find_footprint, get_net_for_pad, get_pad_position, move_component, Move,
};
use kicad2print::sync::{describe_outcome, update_pcb_from_schematic, update_report, NetOutcome};

const ONE: i64 = 1_000_000_000;

fn mm(v: f64) -> i64 {
    (v * 1_000_000.0).round() as i64
}

const BOARD: &str = "(kicad_pcb
  (footprint \"Resistor:R_0805\" (layer \"F.Cu\")
    (tstamp 1)
    (at 10 20 90)
    (property \"Reference\" \"R1\" (at 0 -2 90))
    (property \"Value\" \"10k\" (at 0 2 90))
    (pad \"1\" smd rect (at -1 0 90) (size 1 1.2) (layers \"F.Cu\" \"F.Mask\") (net \"GND\"))
    (pad \"2\" smd rect (at 1 0 90) (size 1 1.2) (layers \"F.Cu\" \"F.Mask\") (net \"VCC\"))
  )
  (footprint \"Capacitor:C_0603\" (layer \"F.Cu\")
    (at 30 40)
    (property \"Reference\" \"C1\" (at 0 -2))
    (property \"Value\" \"100n\" (at 0 2))
    (pad \"1\" smd rect (at 0 0) (size 1 1) (layers \"F.Cu\"))
  )
  (gr_line (start 0 0) (end 50 0) (layer \"Edge.Cuts\") (tstamp e1))
  (gr_line (start 50 0) (end 50 60) (layer \"Edge.Cuts\") (tstamp e2))
  (gr_text \"Rev A\" (at 5 5) (layer \"F.SilkS\") (tstamp t1))
)
";

#[test]
fn a_part_stands_where_the_board_says() {
    assert_eq!(find_footprint(BOARD, "R1"), Some((mm(10.0), mm(20.0), mm(90.0))));
    assert_eq!(find_footprint(BOARD, "C1"), Some((mm(30.0), mm(40.0), 0)));
    assert_eq!(find_footprint(BOARD, "U7"), None);
}

#[test]
fn a_moved_part_stands_where_it_was_put() {
    let to = Move { x: Some(mm(1.5)), y: Some(mm(-2.0)), dx: None, dy: None, rotation: None };
    let done = move_component(BOARD, "b.kicad_pcb", "R1", to).unwrap();
    assert_eq!(find_footprint(&done.content, "R1"), Some((mm(1.5), mm(-2.0), mm(90.0))));
    assert_eq!(find_footprint(&done.content, "C1"), Some((mm(30.0), mm(40.0), 0)));
    assert_eq!(done.summary, "Moved R1 to (1.5, -2, rot=90°)");
    let by = Move { x: None, y: None, dx: Some(mm(1.0)), dy: Some(mm(2.0)), rotation: Some(mm(45.0)) };
    let done = move_component(BOARD, "b.kicad_pcb", "C1", by).unwrap();
    assert_eq!(find_footprint(&done.content, "C1"), Some((mm(31.0), mm(42.0), mm(45.0))));
    let why = move_component(BOARD, "b.kicad_pcb", "U7", to).unwrap_err();
    assert_eq!(why, "Reference 'U7' not found in b.kicad_pcb.");
    let far = Move { dx: Some(i64::MAX), ..by };
    assert_eq!(
        move_component(BOARD, "b", "C1", far).unwrap_err(),
        "The new position is out of range."
    );
}

#[test]
fn pads_turn_with_their_part() {
    let all = get_pad_position(BOARD, "R1", None, 0, ONE).unwrap();
    assert!(all.contains("\n  pad 1: (10.0000, 19.0000) [F.Cu]"), "{}", all);
    assert!(all.contains("\n  pad 2: (10.0000, 21.0000) [F.Cu]"), "{}", all);
    let one = get_pad_position(BOARD, "R1", Some("2"), 0, ONE).unwrap();
    assert!(one.starts_with("Pad 2 of R1 [F.Cu]: (10.0000, 21.0000"), "{}", one);
    assert_eq!(
        get_pad_position(BOARD, "R1", Some("9"), 0, ONE).unwrap(),
        "Pad 9 not found in R1"
    );
    assert_eq!(
        get_pad_position(BOARD, "X1", None, ONE, 0).unwrap_err(),
        "Reference 'X1' not found."
    );
}

#[test]
fn the_net_of_a_pad_is_told() {
    let said = get_net_for_pad(BOARD, "R1", "2", 0, ONE).unwrap();
    assert!(said.starts_with("Pad R1/2: net=\"VCC\"  pos=(10.000, 21.000)mm"), "{}", said);
    let why = get_net_for_pad(BOARD, "R1", "9", 0, ONE).unwrap_err();
    assert_eq!(why, "Pad '9' not found in 'R1'. Available pads: 1, 2");
    let why = get_net_for_pad(BOARD, "X1", "1", ONE, 0).unwrap_err();
    assert!(why.starts_with("Footprint 'X1' not found. Available refs: "), "{}", why);
}

#[test]
fn a_part_is_shown_whole() {
    let (block, said) = get_component(BOARD, "b.kicad_pcb", "C1").unwrap();
    let text = format!("{block}{said}");
    assert!(text.contains("Capacitor:C_0603"));
    let why = get_component(BOARD, "b.kicad_pcb", "Q1").unwrap_err();
    assert!(why.starts_with("Reference 'Q1' not found in b.kicad_pcb.\nAvailable: "));
}

#[test]
fn parts_are_taken_off() {
    let refs = vec!["R1".to_string(), "Q9".to_string()];
    let done = delete_component(BOARD, &refs).unwrap();
    assert!(!done.content.contains("R_0805") && done.content.contains("C_0603"));
    assert_eq!(done.summary, "Removed 1 component(s): R1\nNot found (skipped): Q9");
    let why = delete_component(BOARD, &vec!["Q9".to_string()]).unwrap_err();
    assert_eq!(why, "None of the requested refs found: Q9");
}

fn pad(number: &str, x: f64) -> PadSpec {
    PadSpec {
        number: number.into(),
        pad_type: "smd".into(),
        shape: "rect".into(),
        x: mm(x),
        y: 0,
        size_x: mm(1.0),
        size_y: mm(2.0),
        drill: None,
    }
}

#[test]
fn a_footprint_is_made_of_pads() {
    let wanted = CreateFootprintParams {
        library_path: "lib.pretty".into(),
        name: "TWO".into(),
        description: None,
        tags: Some("t".into()),
        pads: vec![pad("1", -1.0), pad("2", 1.0)],
        courtyard_margin: Some(mm(0.5)),
    };
    let text = create_footprint(&wanted).unwrap();
    assert!(text.starts_with("(footprint \"TWO\" (version 20211014)"));
    assert!(text.contains("(tags \"t\")\n(attr smd)"));
    assert!(text.contains("  (pad \"1\" smd rect (at -1 0) (size 1 2)"));
    assert!(text.contains("(start -2 -1.5) (end 2 1.5)"), "{}", text);
    assert!(create_footprint(&CreateFootprintParams { pads: vec![], ..wanted }).is_none());
    assert_eq!(
        write_footprint_made("TWO", "lib.pretty/TWO.kicad_mod", 2),
        "Created footprint 'TWO' at lib.pretty/TWO.kicad_mod\n2 pad(s) defined."
    );
}

fn new_part() -> NewPart<'static> {
    NewPart {
        library: "Lib",
        footprint: "TWO",
        reference: "J3",
        value: "plug",
        x: mm(5.0),
        y: mm(6.0),
        rotation: Some(mm(90.0)),
        stamp: "s-1",
    }
}

const MODULE: &str = "(footprint \"TWO\" (version 20211014)\n  (fp_text reference \"REF**\" (at 0 0))\n  (fp_text value \"TWO\" (at 0 1))\n)";

#[test]
fn a_new_part_stands_on_the_board() {
    let block = kicad_mod_to_pcb_footprint(MODULE, new_part());
    assert!(block.contains("\"Lib:TWO\""), "{}", block);
    assert!(block.contains("\"J3\"") && !block.contains("REF**"));
    let done = add_component(BOARD, MODULE, "TWO", new_part()).unwrap();
    assert!(done.content.contains("(tstamp s-1)"));
    assert_eq!(find_footprint(&done.content, "J3"), Some((mm(5.0), mm(6.0), mm(90.0))));
    assert_eq!(find_footprint(&done.content, "R1"), find_footprint(BOARD, "R1"));
    assert!(done.summary.starts_with("Added Lib:TWO as J3 (plug) at ("), "{}", done.summary);
}

#[test]
fn drawings_are_added_and_deleted() {
    let line = Graphic {
        kind: Some("line"),
        x: mm(1.0),
        y: mm(2.0),
        x2: Some(mm(3.0)),
        y2: None,
        text: None,
        layer: None,
        width: None,
        font_size: None,
        rotation: None,
    };
    let done = add_graphic(BOARD, line, "g-1").unwrap();
    assert!(done.content.contains("(gr_line (start 1 2) (end 3 2)"), "{}", done.content);
    assert!(done.content.contains("(layer \"F.SilkS\")"));
    assert_eq!(done.summary, "Added line on F.SilkS at (1, 2)");
    let back = delete_graphic(&done.content, None, None, Some("g-1"), false).unwrap();
    assert_eq!(back.summary, "Removed 1 graphic element(s).");
    assert!(!back.content.contains("g-1"));
    let text = Graphic { kind: Some("text"), text: Some("Hi"), rotation: Some(mm(90.0)), ..line };
    let done = add_graphic(BOARD, text, "g-2").unwrap();
    assert!(done.content.contains("(gr_text \"Hi\" (at 1 2 90)"), "{}", done.content);
    let circle = Graphic { kind: Some("circle"), x2: Some(i64::MAX), ..line };
    assert_eq!(add_graphic(BOARD, circle, "g").unwrap_err(), "The drawing is out of range.");
    assert_eq!(
        delete_graphic(BOARD, None, None, None, false).unwrap_err(),
        "Provide at least one filter: text_contains, layer, or tstamp"
    );
}

#[test]
fn drawings_are_found_by_their_text() {
    let (left, n) = remove_matching_graphics(BOARD, Some("Rev"), None, None, false);
    assert_eq!(n, 1);
    assert!(!left.contains("Rev A") && left.contains("e1"));
    let (same, n) = remove_matching_graphics(BOARD, Some("Rev"), Some("B.SilkS"), None, false);
    assert_eq!((same.as_str(), n), (BOARD, 0));
}

#[test]
fn lists_are_split_at_commas() {
    assert_eq!(read_list("F.Cu , B.Cu"), vec!["F.Cu".to_string(), "B.Cu".to_string()]);
}

#[test]
fn the_outline_is_read_and_set() {
    let b = parse_edge_cuts_bounds(BOARD);
    assert_eq!(b, BoundingBox { min_x: 0, min_y: 0, max_x: mm(50.0), max_y: mm(60.0) });
    let said = get_board_outline(BOARD);
    assert!(said.contains("\n  x_max=50\n  y_max=60\n  width=50.0000mm\n  height=60.0000mm"), "{}", said);
    let new = BoundingBox { min_x: mm(1.0), min_y: mm(2.0), max_x: mm(11.0), max_y: mm(22.0) };
    let done = set_board_outline(BOARD, &new, false, ("a", "b", "c", "d"));
    assert_eq!(parse_edge_cuts_bounds(&done), new);
    assert!(!done.contains("e1"));
    assert!(describe_new_outline(&new).starts_with("Board outline set to (1, 2) → (11, 22)"));
    assert!(!remove_edge_cuts_lines(BOARD).contains("Edge.Cuts"));
}

#[test]
fn zones_as_large_as_the_board_follow_it() {
    let zone = "(kicad_pcb\n  (zone (net 1)\n    (polygon\n      (pts\n        (xy 0 0) (xy 50 0) (xy 50 60) (xy 0 60)\n      )\n    )\n  )\n)\n";
    let old = BoundingBox { min_x: 0, min_y: 0, max_x: mm(50.0), max_y: mm(60.0) };
    let new = BoundingBox { min_x: 0, min_y: 0, max_x: mm(10.0), max_y: mm(10.0) };
    let done = update_all_zone_polygons(zone, &old, &new);
    assert!(done.contains("(xy 10 10)") && !done.contains("(xy 50 60)"), "{}", done);
    let small = BoundingBox { min_x: 0, min_y: 0, max_x: mm(500.0), max_y: mm(600.0) };
    assert_eq!(update_all_zone_polygons(zone, &small, &new), zone);
    let tabbed = "(kicad_pcb\n\t(zone\n\t\t(net 1)\n\t\t(polygon\n\t\t\t(pts\n\t\t\t\t(xy 0 0) (xy 50 0) (xy 50 60) (xy 0 60)\n\t\t\t)\n\t\t)\n\t)\n)\n";
    assert!(!update_all_zone_polygons(tabbed, &old, &new).contains("(xy 50 60)"));
}

#[test]
fn a_section_is_shown_with_its_lines() {
    let said = read_kicad_section("a\nb\nc\nd\n", 2, 2);
    assert!(said.starts_with("Lines 2–3 of 4 total\n"), "{}", said);
    assert!(said.contains('b') && said.contains('c') && !said.contains('d'));
}

const NETLIST: &str = "(export (components
  (comp (ref \"R1\") (value \"22k\") (footprint \"Resistor:R_0805\"))
  (comp (ref \"U1\") (value \"MCU\") (footprint \"IC:QFN\")))
 (nets (net (code 1) (name \"GND\") (node (ref \"R1\") (pin \"1\")) (node (ref \"U1\") (pin \"4\")))))";

#[test]
fn a_netlist_gives_parts_and_nets() {
    assert_eq!(read_parts(NETLIST).unwrap().len(), 2);
    let nets = read_pin_nets(NETLIST);
    assert_eq!(nets.len(), 2);
    assert_eq!((nets[1].reference.as_str(), nets[1].pin.as_str()), ("U1", "4"));
    assert_eq!(nets[1].net, "GND");
    assert_eq!(read_parts("(export (components").err(), Some(NetlistError::Malformed));
    assert_eq!(read_parts("(export)").err(), Some(NetlistError::NoParts));
}

#[test]
fn nets_on_lines_of_their_own_are_read() {
    let long = "(nets\n\t(net\n\t\t(code \"1\")\n\t\t(name \"VCC\")\n\t\t(node\n\t\t\t(ref \"U1\")\n\t\t\t(pin \"2\")\n\t\t)\n\t)\n)";
    let nets = read_pin_nets(long);
    assert_eq!(nets.len(), 1);
    assert_eq!((nets[0].pin.as_str(), nets[0].net.as_str()), ("2", "VCC"));
}

#[test]
fn a_board_is_brought_up_to_date() {
    let done = update_pcb_from_schematic(NETLIST, BOARD, false).unwrap();
    assert!(done.content.contains("\"22k\"") && !done.content.contains("\"10k\""));
    assert_eq!(done.plan.missing_from_pcb, vec!["U1".to_string()]);
    assert_eq!(done.plan.missing_from_sch, vec!["C1".to_string()]);
    assert_eq!(done.plan.updated.len(), 1);
    assert_eq!(done.pin_nets.len(), 2);
    let planned = update_pcb_from_schematic(NETLIST, BOARD, true).unwrap();
    assert_eq!(planned.content, BOARD);
    assert!(planned.pin_nets.is_empty());
    let report = update_report(&done.plan, false, "");
    assert!(report.contains("R1") && report.contains("U1") && report.contains("C1"));
    assert!(update_pcb_from_schematic("(", BOARD, false).is_err());
    let again = update_pcb_from_schematic(NETLIST, &done.content, false).unwrap();
    assert_eq!(again.plan.updated.len(), 0);
    assert_eq!(again.content, done.content);
}

#[test]
fn the_outcome_of_putting_pads_on_nets_is_told() {
    assert_ne!(describe_outcome(&NetOutcome::NoNets), describe_outcome(&NetOutcome::Assigned(3)));
    assert!(describe_outcome(&NetOutcome::Assigned(3)).contains('3'));
    assert!(describe_outcome(&NetOutcome::Failed("boom".into())).contains("boom"));
    assert!(describe_outcome(&NetOutcome::Skipped("gone".into())).contains("gone"));
}

const SCHEMATIC: &str = "(kicad_sch
\t(lib_symbols
\t\t(symbol \"Device:R\"
\t\t\t(pin passive line (at 0 0 0) (name \"A\") (number \"1\"))
\t\t\t(pin passive line (at 0 1 0) (name \"B\") (number \"2\"))
\t\t)
\t\t(symbol \"Device:C\"
\t\t\t(pin passive line (at 0 0 0) (name \"A\") (number \"1\"))
\t\t\t(pin passive line (at 0 1 0) (name \"K\") (number \"2\"))
\t\t)
\t)
\t(symbol
\t\t(lib_id \"Device:R\")
\t\t(at 1 2 0)
\t\t(property \"Reference\" \"R1\"
\t\t)
\t\t(property \"Value\" \"10k\"
\t\t)
\t\t(property \"Footprint\" \"F:1\"
\t\t)
\t\t(pin \"1\"
\t\t\t(uuid \"u1\")
\t\t)
\t\t(pin \"2\"
\t\t\t(uuid \"u2\")
\t\t)
\t)
)
";

#[test]
fn a_symbol_is_replaced_by_another() {
    let fresh: Vec<String> = (0..8).map(|i| format!("f{i}")).collect();
    let done =
        replace_symbol(SCHEMATIC, "R1", "Device:C", Some("1u"), None, None, &fresh).unwrap();
    assert_eq!((done.old_lib_id.as_str(), done.old_value.as_str()), ("Device:R", "10k"));
    assert_eq!((done.new_value.as_str(), done.new_footprint.as_str()), ("1u", "F:1"));
    assert!(done.content.contains("(lib_id \"Device:C\")"));
    assert!(done.content.contains("\n\t\t(pin \"1\" (uuid \"u1\"))"), "a pin of the same name keeps its mark");
    assert!(!done.content.contains("u2"));
    assert!(done.content.contains("\n\t\t(pin \"2\" (uuid \"f"), "another pin gets a fresh one");
    assert!(!done.content.contains("(symbol \"Device:R\""));
    assert_eq!(done.pins, 2);
    assert_eq!(done.lost, vec!["B".to_string()]);
    assert_eq!(
        replace_symbol(SCHEMATIC, "R9", "Device:C", None, None, None, &fresh).err(),
        Some(SymbolError::UnknownReference)
    );
    let bare = SCHEMATIC.replace("(lib_symbols", "(symbols");
    assert_eq!(
        replace_symbol(&bare, "R1", "Device:C", None, None, None, &fresh).err(),
        Some(SymbolError::NoLibrary)
    );
}

#[test]
fn drawings_may_go_on_in_the_next_line() {
    let board = "(kicad_pcb\n\t(gr_line\n\t\t(start 0 0)\n\t\t(end 10 20)\n\t\t(layer \"Edge.Cuts\")\n\t)\n\t(gr_rect\n\t\t(start 1 2)\n\t\t(end 30 4)\n\t\t(layer \"Edge.Cuts\")\n\t)\n\t(gr_line_like \"Edge.Cuts\")\n\t(net 1)\n)\n";
    let b = parse_edge_cuts_bounds(board);
    assert_eq!(b, BoundingBox { min_x: 0, min_y: 0, max_x: mm(30.0), max_y: mm(20.0) });
    assert_eq!(
        remove_edge_cuts_lines(board),
        "(kicad_pcb\n\t\t\t(gr_line_like \"Edge.Cuts\")\n\t(net 1)\n)\n"
    );
    let (left, n) = remove_matching_graphics(board, None, Some("Edge.Cuts"), None, false);
    assert_eq!(n, 2);
    assert!(left.contains("(net 1)") && !left.contains("gr_rect"));
}

#[test]
fn cutting_takes_one_line_break() {
    let span = |a: usize, b: usize| Span { start: a, end: b };
    assert_eq!(splice_out_ranges("a\nX\nb", vec![span(2, 3)]), "a\nb");
    assert_eq!(splice_out_ranges("a\nX", vec![span(2, 3)]), "a");
    assert_eq!(splice_out_ranges("aXb", vec![span(1, 2)]), "ab");
    let twice = "a\nX\nb\nY\nc";
    assert_eq!(splice_out_ranges(twice, vec![span(2, 3), span(6, 7)]), "a\nb\nc");
    assert_eq!(splice_out_ranges(twice, vec![span(6, 7), span(2, 3)]), "a\nb\nc");
}

#[test]
fn traces_may_go_on_in_the_next_line() {
    let board = "(kicad_pcb\n\t(segment\n\t\t(start 1 1)\n\t\t(end 2 1)\n\t\t(width 0.2)\n\t\t(layer \"F.Cu\")\n\t\t(net 1)\n\t)\n)\n";
    let (left, n, layers) = remove_orphaned_segments(board, None, &vec![]);
    assert_eq!((n, layers.get("F.Cu")), (1, Some(&1)));
    assert!(!left.contains("segment"));
}

#[test]
fn pins_of_a_rebuilt_symbol_are_read_back() {
    let pins = vec![
        ("1".to_string(), "u-1".to_string()),
        ("A(2)".to_string(), "u-2".to_string()),
    ];
    let lines = "(symbol (lib_id \"A:B\")\n    (property \"Value\" \"x\")\n    (pin \"9\" (uuid \"old\"))\n  )";
    let tabs = "(symbol\n\t\t(lib_id \"A:B\")\n\t\t(pin \"9\"\n\t\t\t(uuid \"old\")\n\t\t)\n\t\t(instances)\n\t)";
    let bare = "(symbol (lib_id \"A:B\")\n  )";
    for block in [lines, tabs, bare] {
        let new = rebuild_symbol_instance(block, "C:D", "y", "F", &pins);
        assert_eq!(extract_instance_pins(&new), pins, "{new}");
        assert!(new.contains("C:D"));
    }
}

#[test]
fn no_old_pin_is_left_in_a_rebuilt_symbol() {
    let none: Vec<(String, String)> = vec![];
    let two = vec![("1".to_string(), "a".to_string()), ("3".to_string(), "c".to_string())];
    let blocks = [
        "\n\t\t(pin \"\")x\n\t\t(pin \"2\" (uuid \"b\"))\n  )",
        "(symbol\n\t\t(pin \"7\"\n\t\t\t(uuid \"x\")\n\t\t) \n\n\t\t(fields_autoplaced)\n\t\t(pin \"8\"\n\t\t\t(uuid \"y\")\n\t\t)\n\t)",
        "(symbol\n\t\t(pin \"7\" (uuid \"x\"))\n    (pin \"8\" (uuid \"y\"))\n  )",
        "(symbol\n\t\t(pi\n\t\t(pin \"7\" (uuid \"x\"))n \"8\" (uuid \"z\"))\n\t)",
        "(symbol\n  )",
    ];
    for block in blocks {
        for pins in [&none, &two] {
            let new = rebuild_symbol_instance(block, "C:D", "y", "F", pins);
            assert_eq!(&extract_instance_pins(&new), pins, "{block} -> {new}");
            assert!(!new.contains("\"y\"") && !new.contains("\"x\""), "{new}");
        }
    }
    let slash = vec![("1\\".to_string(), "a".to_string())];
    let new = rebuild_symbol_instance("(symbol\n  )", "C:D", "y", "F", &slash);
    assert_eq!(extract_instance_pins(&new), slash);
    let kept = rebuild_symbol_instance(blocks[1], "C:D", "y", "F", &two);
    assert_eq!(
        kept,
        "(symbol\n\t\t(pin \"1\" (uuid \"a\"))\n\t\t(pin \"3\" (uuid \"c\")) \n\n\t\t(fields_autoplaced)\n\t)"
    );
}
