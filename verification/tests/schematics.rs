use kicad2print::anchors::{collect_pin_positions, symbol_turns};
use kicad2print::graphics::cleanup_dangling_wires;
use kicad2print::placing::{compute_pin_positions, move_symbol, sch_replace_at};
use kicad2print::power::{add_power_symbol, extract_lib_symbol, power_library_paths, Power};
use kicad2print::schematic::{
    extract_pin_field, extract_quoted_after, extract_quoted_after_kw, find_lib_symbol_def,
    find_sch_symbol_by_ref, find_symbol_blocks, replace_sch_property, sch_property_value,
};
use kicad2print::wires::remove_dangling_wires;
use kicad2print::wiring::{add_label, add_wire, get_pin_position, move_label, move_symbol_to, Label};

const ONE: i64 = 1_000_000_000;

fn mm(v: f64) -> i64 {
    (v * 1_000_000.0).round() as i64
}

/// A schematic with one symbol, its definition and one wire, each on lines of their own
/// and set in with tabs.
fn sample_schematic() -> String {
    "\
(kicad_sch
	(version 20231120)
	(lib_symbols
		(symbol \"Connector:USB_B_Mini\"
			(pin_names
				(offset 1.016)
			)
			(symbol \"USB_B_Mini_1_1\"
				(pin power_out line
					(at 7.62 5.08 180)
					(length 2.54)
					(name \"VBUS\")
					(number \"1\")
				)
			)
		)
	)
	(wire
		(pts
			(xy 72.39 53.34) (xy 74.93 53.34)
		)
		(stroke
			(width 0)
			(type default)
		)
		(uuid \"200f4132-b397-4ea7-b4b3-866ee1e7c310\")
	)
	(symbol
		(lib_id \"Connector:USB_B_Mini\")
		(at 74.93 43.18 0)
		(unit 1)
		(property \"Reference\" \"PWR1\"
			(at 76.3778 31.3182 0)
		)
		(property \"Value\" \"USB_B_Mini\"
			(at 76.3778 33.6296 0)
		)
		(property \"Footprint\" \"\"
			(at 78.74 44.45 0)
		)
		(instances
			(project \"test\"
				(path \"/abc\"
					(reference \"PWR1\")
					(unit 1)
				)
			)
		)
	)
)
"
    .to_string()
}

#[test]
fn find_symbol_blocks_matches_multiline_tab_indented_form() {
    let content = sample_schematic();
    let blocks = find_symbol_blocks(&content);
    assert!(blocks.contains_key("PWR1"));
    assert_eq!(blocks.len(), 1, "expected exactly one placed instance");
}

#[test]
fn find_sch_symbol_by_ref_finds_multiline_tab_indented_instance() {
    let content = sample_schematic();
    let range = find_sch_symbol_by_ref(&content, "PWR1");
    assert!(range.is_some(), "find_sch_symbol_by_ref failed on tab-indented, multi-line schematic");
    let block = &content[range.unwrap()];
    assert!(block.contains("\"PWR1\""));
    assert!(block.starts_with("(symbol"));
}

#[test]
fn sch_replace_at_locates_at_on_its_own_line() {
    let content = sample_schematic();
    let range = find_sch_symbol_by_ref(&content, "PWR1").expect("block not found");
    let block = &content[range];
    let new_block = sch_replace_at(block, mm(100.0), mm(50.0), Some(mm(90.0)));
    assert!(new_block.contains("(at 100 50 90)"), "new placement not applied: {}", new_block);
    assert!(new_block.contains("\"PWR1\""));
}

#[test]
fn compute_pin_positions_works_on_multiline_tab_indented_instance() {
    let content = sample_schematic();
    let pins = compute_pin_positions(&content, "PWR1", ONE, 0);
    assert!(!pins.is_empty());
    assert_eq!(pins, vec![("1".to_string(), "VBUS".to_string(), mm(82.55), mm(48.26))]);
}

#[test]
fn remove_dangling_wires_finds_tab_indented_multiline_wire_blocks() {
    let content = sample_schematic();
    let turns = symbol_turns(&content);
    assert!(turns.iter().all(|t| t.1 == 0));
    let turns = turns.into_iter().map(|t| (t.0, (ONE, 0))).collect();
    let pins = collect_pin_positions(&content, &turns);
    assert!(pins.contains(&(mm(82.55), mm(48.26))));
    let (_new_content, count) = remove_dangling_wires(&content, &pins);
    assert_eq!(
        count, 1,
        "expected to find and remove exactly 1 dangling wire in the tab-indented fixture"
    );
}

#[test]
fn wire_removal_keeps_everything_else() {
    let content = sample_schematic();
    let (left, count) = remove_dangling_wires(&content, &vec![]);
    assert_eq!(count, 1);
    assert!(!left.contains("(wire"));
    assert!(left.contains("(lib_symbols") && left.contains("\"PWR1\""));
}

#[test]
fn a_wire_between_two_pins_stays() {
    let content = sample_schematic();
    let pins = vec![(mm(72.39), mm(53.34)), (mm(74.93), mm(53.34))];
    let (left, count) = remove_dangling_wires(&content, &pins);
    assert_eq!(count, 0);
    assert_eq!(left, content);
}

#[test]
fn a_dry_run_of_the_wire_cleanup_writes_nothing() {
    let content = sample_schematic();
    let (new, said) = cleanup_dangling_wires(&content, &vec![], true);
    assert_eq!(new, None);
    assert_eq!(said, "Dry run: would remove 1 dangling wire segment(s).");
    let (new, said) = cleanup_dangling_wires(&content, &vec![], false);
    assert!(new.is_some());
    assert_eq!(said, "Removed 1 dangling wire segment(s).");
}

#[test]
fn a_moved_symbol_keeps_its_turn_unless_told() {
    let content = sample_schematic();
    let moved = move_symbol(&content, "PWR1", mm(10.5), mm(-2.0), None).unwrap();
    assert!(moved.contains("(at 10.5 -2)\n\t\t(unit 1)"), "{}", moved);
    assert!(move_symbol(&content, "PWR2", 0, 0, None).is_none());
    let turned = move_symbol(&content, "PWR1", 0, 0, Some(mm(180.0))).unwrap();
    let kept = move_symbol(&turned, "PWR1", mm(1.0), mm(2.0), None).unwrap();
    assert!(kept.contains("(at 1 2 180)"));
}

#[test]
fn moving_a_symbol_tells_where_to() {
    let content = sample_schematic();
    let done = move_symbol_to(&content, "PWR1", mm(10.0), mm(20.0), None).unwrap();
    assert_eq!(done.summary, "Moved PWR1 to (10, 20)");
    let why = move_symbol_to(&content, "U9", 0, 0, None).unwrap_err();
    assert_eq!(why, "Symbol 'U9' not found in schematic.");
}

#[test]
fn pins_turn_with_their_symbol() {
    let content = sample_schematic();
    let quarter = compute_pin_positions(&content, "PWR1", 0, ONE);
    assert_eq!(quarter[0].2, mm(74.93 - 5.08));
    assert_eq!(quarter[0].3, mm(43.18 + 7.62));
    let half = compute_pin_positions(&content, "PWR1", -ONE, 0);
    assert_eq!((half[0].2, half[0].3), (mm(74.93 - 7.62), mm(43.18 - 5.08)));
}

#[test]
fn pin_positions_are_told() {
    let content = sample_schematic();
    let all = get_pin_position(&content, "PWR1", None, ONE, 0).unwrap();
    assert_eq!(all, "Pins for PWR1:\n  pin 1 \"VBUS\": (82.5500, 48.2600)");
    let one = get_pin_position(&content, "PWR1", Some("1"), ONE, 0).unwrap();
    assert_eq!(one, "Pin 1 (\"VBUS\") of PWR1: (82.5500, 48.2600)");
    let none = get_pin_position(&content, "PWR1", Some("7"), ONE, 0).unwrap();
    assert_eq!(none, "Pin 7 not found in PWR1");
    let why = get_pin_position(&content, "X1", None, ONE, 0).unwrap_err();
    assert_eq!(why, "Symbol 'X1' not found or has no pins in lib_symbols.");
}

#[test]
fn a_property_is_read_from_its_block() {
    let content = sample_schematic();
    let range = find_sch_symbol_by_ref(&content, "PWR1").unwrap();
    assert_eq!(sch_property_value(&content[range], "Value"), Some("USB_B_Mini".to_string()));
}

#[test]
fn a_wire_goes_before_the_end_of_the_file() {
    let done = add_wire("(kicad_sch\n)\n", mm(1.0), mm(2.5), mm(-3.0), 0, "u-1").unwrap();
    assert_eq!(
        done.content,
        "(kicad_sch\n  (wire (pts (xy 1 2.5) (xy -3 0))\n    (stroke (width 0) (type default))\n    (uuid \"u-1\")\n  )\n)\n"
    );
    assert_eq!(done.summary, "Wire added: (1, 2.5) → (-3, 0)");
    assert_eq!(
        add_wire("nothing", 0, 0, 0, 0, "u").unwrap_err(),
        "File does not appear to be a valid KiCad schematic (no closing paren found)"
    );
}

#[test]
fn labels_are_local_unless_global() {
    let local = Label {
        text: "CLK",
        x: mm(10.0),
        y: mm(20.0),
        rotation: None,
        kind: None,
        shape: None,
    };
    let done = add_label("(kicad_sch\n)", local, "id").unwrap();
    assert!(done.content.contains("(label \"CLK\" (at 10 20 0)"));
    assert_eq!(done.summary, "local label \"CLK\" added at (10, 20)");
    let global = Label { kind: Some("global"), rotation: Some(mm(90.0)), ..local };
    let done = add_label("(kicad_sch\n)", global, "id").unwrap();
    assert!(done.content.contains("(global_label \"CLK\" (shape bidirectional) (at 10 20 90)"));
    let shaped = Label { shape: Some("input"), ..global };
    assert!(add_label("(kicad_sch\n)", shaped, "id").unwrap().content.contains("(shape input)"));
    assert!(add_label("", local, "id").is_err());
}

#[test]
fn a_label_is_moved_from_its_place() {
    let start = "(kicad_sch\n  (label \"CLK\" (at 10 20 90)\n  )\n  (label \"CLK\" (at 1 1 0)\n  )\n)";
    let done = move_label(start, "s.kicad_sch", "CLK", (mm(10.0), mm(20.0)), (mm(5.0), mm(6.5)), None)
        .unwrap();
    assert!(done.content.contains("(label \"CLK\" (at 5 6.5 90)"));
    assert!(done.content.contains("(label \"CLK\" (at 1 1 0)"));
    assert_eq!(done.summary, "Label \"CLK\" moved from (10, 20) to (5, 6.5)");
    let why = move_label(start, "s.kicad_sch", "CLK", (0, 0), (0, 0), None).unwrap_err();
    assert_eq!(why, "Label \"CLK\" at (0, 0) not found in s.kicad_sch");
}

#[test]
fn a_global_label_is_moved_and_turned() {
    let start = "(kicad_sch\n  (global_label \"TX\" (shape input) (at 3 4)\n  )\n)";
    let kept = move_label(start, "p", "TX", (mm(3.0), mm(4.0)), (mm(1.0), mm(2.0)), None).unwrap();
    assert!(kept.content.contains("(shape input) (at 1 2 0)"));
    let turned =
        move_label(start, "p", "TX", (mm(3.0), mm(4.0)), (mm(1.0), mm(2.0)), Some(mm(45.0))).unwrap();
    assert!(turned.content.contains("(at 1 2 45)"));
}

fn power(net: &str) -> Power<'_> {
    Power {
        net,
        x: mm(50.0),
        y: mm(60.0),
        rotation: None,
        project: "demo",
        stamp: "inst",
        pin_stamp: "pin",
    }
}

const LIBRARY: &str = "(kicad_symbol_lib\n  (symbol \"power:GND\"\n    (power)\n\n    (in_bom yes)\n  )\n)";

#[test]
fn a_definition_is_set_in_for_the_schematic() {
    assert_eq!(
        extract_lib_symbol(LIBRARY, "GND"),
        Some("\t\t  (symbol \"power:GND\"\n\t\t    (power)\n\n\t\t    (in_bom yes)\n\t\t  )".to_string())
    );
    assert_eq!(extract_lib_symbol(LIBRARY, "VCC"), None);
}

#[test]
fn a_power_symbol_brings_its_definition_once() {
    let start = "(kicad_sch\n\t(lib_symbols\n\t)\n\t(x \"#PWR007\" \"#PWR012\")\n\t(path \"/root-1\")\n)";
    let done = add_power_symbol(start, LIBRARY, "power.kicad_sym", power("GND")).unwrap();
    assert!(done.content.contains("(lib_symbols\n\t\t  (symbol \"power:GND\""));
    assert!(done.content.contains("(property \"Reference\" \"#PWR013\"\n\t\t\t(at 50 63.81 0)"));
    assert!(done.content.contains("(property \"Value\" \"GND\"\n\t\t\t(at 50 56.444 0)"));
    assert!(done.content.contains("with name \\\"GND\\\""), "{}", done.content);
    assert!(done.content.contains("(path \"/root-1\"\n\t\t\t\t\t(reference \"#PWR013\")"));
    assert_eq!(
        done.summary,
        "Added power symbol 'power:GND' at (50, 60) rot=0° as #PWR013 (lib_symbols definition added)\nLib: power.kicad_sym"
    );
    let again = add_power_symbol(&done.content, LIBRARY, "power.kicad_sym", power("GND")).unwrap();
    assert!(again.summary.contains("as #PWR014 (lib_symbols already present)"));
    assert_eq!(again.content.matches("(symbol \"power:GND\"").count(), 1);
}

#[test]
fn a_power_symbol_is_refused_where_it_cannot_go() {
    let start = "(kicad_sch\n\t(lib_symbols\n\t)\n)";
    let why = add_power_symbol(start, LIBRARY, "p.kicad_sym", power("VCC")).unwrap_err();
    assert!(why.starts_with("Symbol 'power:VCC' not found in p.kicad_sym.\n"));
    assert_eq!(
        add_power_symbol("(kicad_sch\n)", LIBRARY, "p", power("GND")).unwrap_err(),
        "No (lib_symbols ...) section found in schematic. Is this a valid .kicad_sch file?"
    );
    assert_eq!(
        add_power_symbol("(lib_symbols", LIBRARY, "p", power("GND")).unwrap_err(),
        "Could not find end of schematic file."
    );
    let far = Power { y: i64::MAX, ..power("GND") };
    assert_eq!(
        add_power_symbol(start, LIBRARY, "p", far).unwrap_err(),
        "The position is out of range."
    );
}

#[test]
fn power_libraries_are_looked_for_in_order() {
    assert_eq!(power_library_paths(None).len(), 2);
    let paths = power_library_paths(Some("/home/u"));
    assert_eq!(paths[0], "/usr/share/kicad/symbols/power.kicad_sym");
    assert_eq!(paths[4], "/home/u/.local/share/kicad/7.0/symbols/power.kicad_sym");
}

#[test]
fn quoted_fields_are_read_from_blocks() {
    let pin = "(pin input line (name \"VCC\" (effects)) (number \"8\"))";
    assert_eq!(extract_pin_field(pin, "name").as_deref(), Some("VCC"));
    assert_eq!(extract_pin_field(pin, "number").as_deref(), Some("8"));
    assert_eq!(extract_pin_field(pin, "type"), None);
    assert_eq!(extract_quoted_after(pin, "(number \"").as_deref(), Some("8"));
    assert_eq!(extract_quoted_after_kw(pin, "(name \""), "VCC");
    assert_eq!(extract_quoted_after_kw(pin, "(type \""), "");
    let library = "(lib_symbols (symbol \"Device:R\" (pin a)) (symbol \"Device:C\" (pin b)))";
    let span = find_lib_symbol_def(library, "Device:C").expect("defined");
    assert_eq!(&library[span.start..span.end], "(symbol \"Device:C\" (pin b))");
    assert!(find_lib_symbol_def(library, "Device:L").is_none());
}

#[test]
fn an_old_value_ends_where_it_is_closed() {
    assert_eq!(
        replace_sch_property("(property \"Value\" \"a\\\"b\" (at 0 0))", "Value", "c"),
        "(property \"Value\" \"c\" (at 0 0))"
    );
    let open = "(property \"Value\" \"a\\\"";
    assert_eq!(replace_sch_property(open, "Value", "c"), open);
}

#[test]
fn a_label_elsewhere_is_not_moved() {
    let sheet = "(kicad_sch\n  (label \"N\" (at 1 25 0)\n  )\n  (global_label \"G\" (shape input) (at 1 2.5 0))\n)\n";
    assert!(move_label(sheet, "s", "N", (mm(1.0), mm(2.0)), (mm(9.0), mm(9.0)), None).is_err());
    assert!(move_label(sheet, "s", "G", (mm(1.0), mm(2.0)), (mm(9.0), mm(9.0)), None).is_err());
    let two = "(kicad_sch\n\t(label \"N\"\n\t\t(at 1 25 0)\n\t)\n\t(label \"N\"\n\t\t(at 1 2 90)\n\t)\n)\n";
    let done = move_label(two, "s", "N", (mm(1.0), mm(2.0)), (mm(9.0), mm(8.0)), None).unwrap();
    assert_eq!(done.content, two.replace("(at 1 2 90)", "(at 9 8 90)"));
}

#[test]
fn a_mark_may_go_on_in_the_next_line() {
    let wire = "\t(wire\n\t\t(pts\n\t\t\t(xy 1 1) (xy 2 1)\n\t\t)\n\t)\n";
    let ends = "\t(junction\n\t\t(at 1 1)\n\t)\n\t(no_connect\n\t\t(at 2 1)\n\t)\n";
    let sheet = format!("(kicad_sch\n{wire}{ends})\n");
    assert_eq!(remove_dangling_wires(&sheet, &vec![]), (sheet.clone(), 0));
    let loose = format!("(kicad_sch\n{wire})\n");
    assert_eq!(remove_dangling_wires(&loose, &vec![]).1, 1);
}

#[test]
fn a_label_with_a_quotation_mark_is_found_again() {
    for kind in ["local", "global"] {
        let label = Label {
            text: "say \"hi\"",
            x: mm(1.0),
            y: mm(2.0),
            kind: Some(kind),
            shape: None,
            rotation: None,
        };
        let added = add_label("(kicad_sch\n)\n", label, "id").unwrap();
        assert!(added.content.contains("label \"say \\\"hi\\\"\""), "{}", added.content);
        let to = (mm(3.0), mm(4.0));
        let moved = move_label(&added.content, "s", label.text, (mm(1.0), mm(2.0)), to, None).unwrap();
        assert!(moved.content.contains("(at 3 4 0)"), "{}", moved.content);
    }
}

#[test]
fn white_space_of_any_kind_ends_a_coordinate() {
    for gap in [" ", "\t", "\n"] {
        let sheet = format!("(kicad_sch\n  (label \"N\" (at 1 2{gap}90)\n  )\n)\n");
        let done = move_label(&sheet, "s", "N", (mm(1.0), mm(2.0)), (mm(9.0), mm(8.0)), None).unwrap();
        assert!(done.content.contains("(at 9 8 90)"), "{}", done.content);
    }
}
