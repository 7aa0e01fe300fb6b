use kicad2print::base64_text::embed;
use kicad2print::json::{as_count, as_items, as_text_or, get_member, read_said, JsonValue};
use kicad2print::netlist::PinNet;
use kicad2print::pcb::{BoundingBox, Side};
use kicad2print::routing::{Action, Job};
use kicad2print::scripts::{
    assign_nets_script, describe_replacement, describe_routing, describe_unrouted, read_net_in_brackets,
    read_pads_assigned, read_progress, read_replacement, read_unrouted, replace_footprint_script,
    route_export_script, route_import_script, write_nets, Replacement, Swap,
};
use kicad2print::tools::{
    conversion_overrides, describe_conversion, describe_fabrication, describe_no_libraries,
    describe_zone_fill, fab_layers, file_kind, footprint_library_dirs, list_footprint_libraries,
    list_footprints_in_library, looks_into, read_kicad_file, render_args, render_sides, render_zoom,
    scan_project, schematic_args, search_footprint, write_call_failed, write_file_written,
    ConvertPcbParams, ProjectFile,
};

fn mm(v: f64) -> i64 {
    (v * 1_000_000.0).round() as i64
}

fn texts(list: &[&str]) -> Vec<String> {
    list.iter().map(|t| t.to_string()).collect()
}

#[test]
fn bytes_are_written_in_base64() {
    assert_eq!(embed(b""), "");
    assert_eq!(embed(b"M"), "TQ==");
    assert_eq!(embed(b"Ma"), "TWE=");
    assert_eq!(embed(b"Man"), "TWFu");
    assert_eq!(embed(&[255, 254, 253]), "//79");
    assert_ne!(embed(b"abc"), embed(b"abd"));
}

#[test]
fn members_of_an_answer_are_read() {
    let text = "{\"error\": \"no\", \"n\": 3, \"list\": [1, \"two\"]}";
    assert_eq!(as_text_or(read_said(text, "error"), "?"), "no");
    assert_eq!(as_text_or(read_said(text, "n"), "?"), "?");
    assert_eq!(as_count(&read_said(text, "n")), 3);
    assert_eq!(as_items(read_said(text, "list")), Some(texts(&["1", "\"two\""])));
    assert!(read_said("not json", "n").is_none());
    let object = Some(JsonValue::Object(vec![("k".into(), "1".into())]));
    assert_eq!(get_member(&object, "k"), Some("1".to_string()));
    assert_eq!(get_member(&object, "q"), None);
}

fn pin(reference: &str, pin: &str, net: &str) -> PinNet {
    PinNet { reference: reference.into(), pin: pin.into(), net: net.into() }
}

#[test]
fn nets_are_written_as_json() {
    let list = vec![pin("R1", "1", "GND"), pin("R1", "2", "say \"hi\""), pin("U1", "4", "GND")];
    let text = write_nets(&list);
    assert!(text.contains("\"say \\\"hi\\\"\""), "{}", text);
    let parsed: serde_json::Value = serde_json::from_str(&text).unwrap();
    assert_eq!(parsed["R1"]["1"], "GND");
    assert_eq!(parsed["R1"]["2"], "say \"hi\"");
    assert_eq!(parsed["U1"]["4"], "GND");
    assert_eq!(write_nets(&vec![]), "{}");
}

#[test]
fn scripts_quote_what_they_are_given() {
    let script = assign_nets_script("a \"b\".kicad_pcb", &vec![pin("R1", "1", "GND")]);
    assert!(script.contains("pcbnew.LoadBoard(\"a \\\"b\\\".kicad_pcb\")"), "{}", script);
    let script = replace_footprint_script("b.kicad_pcb", "R1", true, "/l/Lib.pretty", "X");
    assert!(script.contains("FindFootprintByReference(\"R1\")"));
    assert!(script.contains("keep_pos = True"));
    assert!(replace_footprint_script("b", "R1", false, "l", "X").contains("keep_pos = False"));
    assert!(route_export_script("b.kicad_pcb", "b.dsn").contains("\"b.dsn\""));
    let script = route_import_script("b.kicad_pcb", "b.ses", "out.kicad_pcb");
    assert!(script.contains("ImportSpecctraSES(b,\"b.ses\")"));
    assert!(script.contains("b.Save(\"out.kicad_pcb\")"));
}

#[test]
fn the_number_of_pads_is_read() {
    assert_eq!(read_pads_assigned("{\"changed\": [\"R1/1\", \"R1/2\"]}"), 2);
    assert_eq!(read_pads_assigned("oops"), 0);
}

#[test]
fn a_replacement_is_told_with_its_pads() {
    let answer = "{\"pads\": [{\"number\": \"1\", \"x\": 1.5, \"y\": -2.0, \"layer\": \"F.Cu\", \"net\": \"GND\"}], \"old_pad_count\": 2, \"carried_count\": 1, \"uncarried_old\": [{\"number\": \"2\", \"net\": \"VCC\"}]}";
    let r = read_replacement(answer);
    assert_eq!(r.error, None);
    let pads = r.pads.as_ref().unwrap();
    assert_eq!((pads[0].number.as_str(), pads[0].x, pads[0].y), ("1", mm(1.5), mm(-2.0)));
    let swap = Swap {
        reference: "R1",
        before: "A:B",
        library: "Lib",
        footprint: "X",
        at: (mm(1.0), mm(2.0), 0),
    };
    let said = describe_replacement(swap, &r).unwrap();
    assert!(said.starts_with("Replaced R1 footprint: A:B → Lib:X\nPosition kept: (1, 2, rot=0°)\n"));
    assert!(said.contains("\n  pad 1: (1.5000, -2.0000) F.Cu  net=GND"), "{}", said);
    assert!(said.contains("Carried over nets for 1/2 old netted pad(s)."), "{}", said);
    assert!(said.contains("for: pad 2 (was VCC) — reassign manually."), "{}", said);
    let failed = read_replacement("{\"error\": \"reference not found\"}");
    assert_eq!(
        describe_replacement(swap, &failed),
        Err("replace_footprint error: \"reference not found\"".to_string())
    );
    let none =
        Replacement { error: None, pads: Some(vec![]), old_count: 0, carried: 0, left_over: vec![] };
    assert!(describe_replacement(swap, &none).unwrap().contains("nothing to carry over"));
}

#[test]
fn unrouted_nets_are_found_once_each() {
    let report = "{\"unconnected_items\": [{\"items\": [{\"description\": \"Pad 1 [GND] of R1\"}, {\"description\": \"Pad 2 [GND] of R2\"}]}, {\"items\": [{\"description\": \"Pad 1 [VCC] of U1\"}]}]}";
    assert_eq!(read_net_in_brackets("Pad 1 [GND] of R1"), Some("GND".to_string()));
    assert_eq!(read_net_in_brackets("none"), None);
    assert_eq!(read_net_in_brackets("] ["), None);
    let nets = read_unrouted(report);
    assert_eq!(nets, texts(&["GND", "VCC"]));
    assert_eq!(describe_unrouted(&nets), "Unrouted nets (2):\n  GND, VCC");
    assert_eq!(describe_unrouted(&vec![]), "All nets routed successfully.");
    let said = describe_routing("before=1 after=9", "", "b.kicad_pcb", Some(report));
    assert!(said.contains("before=1 after=9") && said.contains("Saved to: b.kicad_pcb"));
    assert!(read_progress("nothing here").len() < 40);
}

#[test]
fn files_are_shown_whole_or_in_part() {
    assert_eq!(read_kicad_file("a\nb\n", None, None), "(2 lines total)\na\nb\n");
    assert!(read_kicad_file("a\nb\nc\n", Some(2), Some(1)).contains('b'));
    assert!(write_file_written("b.kicad_pcb").starts_with("Written to b.kicad_pcb.\n"));
    let said = write_call_failed("kicad-cli", 3, "boom");
    assert!(said.contains("kicad-cli") && said.contains('3') && said.contains("boom"));
}

#[test]
fn the_zoom_fits_the_board() {
    assert!(!render_zoom(None).is_empty());
    let large = BoundingBox { min_x: 0, min_y: 0, max_x: mm(300.0), max_y: mm(200.0) };
    let small = BoundingBox { min_x: 0, min_y: 0, max_x: mm(10.0), max_y: mm(10.0) };
    let number = |b| render_zoom(Some(b)).parse::<f64>().unwrap();
    assert!(number(large) < number(small));
}

#[test]
fn renderers_are_called_with_their_arguments() {
    let args = render_args("o.png", 800, 600, "top", "high", "1.5", "b.kicad_pcb");
    assert!(args.contains(&"o.png".to_string()) && args.contains(&"800".to_string()));
    assert_eq!(args.last().unwrap(), "b.kicad_pcb");
    assert_eq!(render_sides(None), texts(&["top", "bottom"]));
    assert_eq!(render_sides(Some("bottom")), texts(&["bottom"]));
    let plain = schematic_args("d", None, true, "s.kicad_sch");
    assert!(plain.iter().any(|a| a == "--black-and-white"));
    assert!(!schematic_args("d", None, false, "s").iter().any(|a| a == "--black-and-white"));
}

#[test]
fn libraries_are_searched_without_regard_to_case() {
    let list = vec![
        ("Resistor".to_string(), "R_0805".to_string()),
        ("Capacitor".to_string(), "C_0603".to_string()),
    ];
    let said = search_footprint(&list, 2, "r_08", None);
    assert!(said.starts_with("Found 1 match(es) for 'r_08'"), "{}", said);
    assert!(said.contains("R_0805") && !said.contains("C_0603"));
    assert_eq!(
        search_footprint(&list, 2, "QFN", None),
        "No footprints matching 'QFN' found across 2 libraries."
    );
    let most = search_footprint(&list, 2, "0", Some(1));
    assert!(most.contains("R_0805") && !most.contains("C_0603"), "{}", most);
    assert!(list_footprint_libraries(&list).starts_with("Found 2 footprint libraries:\n"));
    assert!(list_footprint_libraries(&vec![]).starts_with("No footprint libraries found."));
    assert_eq!(
        list_footprints_in_library("L", &texts(&["A", "B"])),
        "Library: L (2 footprints)\n\nA\nB"
    );
    assert_eq!(
        list_footprints_in_library("L", &vec![]),
        "No footprints found in library 'L'"
    );
    assert!(footprint_library_dirs(Some("/home/u")).len() > footprint_library_dirs(None).len());
    assert!(describe_no_libraries(None, Some("/p")).contains("/p (project-local)"));
}

#[test]
fn projects_are_scanned() {
    assert_eq!(file_kind(Some("kicad_pcb")), Some(ProjectFile::Board));
    assert_eq!(file_kind(Some("kicad_sch")), Some(ProjectFile::Schematic));
    assert_eq!(file_kind(Some("kicad_pro")), Some(ProjectFile::Project));
    assert_eq!(file_kind(Some("txt")), None);
    assert_eq!(file_kind(None), None);
    assert!(looks_into("boards") && !looks_into(".git"));
    let said = scan_project("/p", &texts(&["/p/b.kicad_pcb"]), &vec![], &vec![]).unwrap();
    assert!(said.starts_with("KiCad project at: /p\n\n") && said.contains("  /p/b.kicad_pcb\n"));
    assert_eq!(
        scan_project("/p", &vec![], &vec![], &vec![]),
        Err("No KiCad files found in '/p'. Make sure the path is correct.".to_string())
    );
}

#[test]
fn fabrication_files_are_listed() {
    assert_eq!(fab_layers(Some("F.Cu")), "F.Cu");
    assert!(fab_layers(None).starts_with("F.Cu,B.Cu"));
    let said =
        describe_fabrication(Some("careful"), None, "out", &texts(&["a.gbr"]), Some("out.zip"));
    assert!(said.starts_with("Gerber warnings:\ncareful\n"));
    assert!(said.contains("\nGenerated 1 file(s) in out:\n"));
    assert!(said.ends_with("\nZip archive: out.zip"));
    assert_eq!(
        describe_zone_fill("b", 0, ""),
        Ok("Zones filled and board saved: b".to_string())
    );
    assert_eq!(describe_zone_fill("b", -1, "no"), Err("Zone fill failed (exit -1):\nno".to_string()));
}

#[test]
fn conversions_are_told_and_take_their_settings() {
    let said = describe_conversion("b.kicad_pcb", Some(Side::Top), 12, &texts(&["a.stl"]));
    assert!(said.starts_with("Converted b.kicad_pcb"), "{}", said);
    assert!(said.contains("\nTriangles: 12\nOutput files:\n"));
    let asked = |format: Option<&str>| ConvertPcbParams {
        input_path: "b".into(),
        output_dir: Some("o".into()),
        channel_width: Some(mm(0.7)),
        channel_depth: None,
        substrate_thickness: None,
        output_format: format.map(|t| t.to_string()),
        side: None,
    };
    let o = conversion_overrides(asked(Some("3mf"))).unwrap();
    assert_eq!(o.channel_width, Some(mm(0.7)));
    assert_eq!(o.output_dir.as_deref(), Some("o"));
    assert!(conversion_overrides(asked(Some("obj")))
        .unwrap_err()
        .starts_with("Invalid output format: "));
}

fn routing_job(saves: bool) -> Job {
    Job {
        path: "/b.kicad_pcb".into(),
        jar: "/r.jar".into(),
        passes: 40,
        saves,
        dsn: "/t.dsn".into(),
        ses: "/t.ses".into(),
        copy: "/t.kicad_pcb".into(),
        report: "/t.json".into(),
    }
}

#[test]
fn routing_goes_from_step_to_step() {
    let job = routing_job(true);
    assert!(matches!(job.begin(true), Action::RunScript(s) if s.contains("ExportSpecctraDSN(b, \"/t.dsn\")")));
    match job.after_export(0, true, "") {
        Action::RunRouter(args) => assert_eq!(
            args,
            vec!["-jar", "/r.jar", "--gui.enabled=false", "-de", "/t.dsn", "-do", "/t.ses", "-mp", "40"]
        ),
        other => panic!("{other:?}"),
    }
    assert!(matches!(job.after_routing(true, ""), Action::RunScript(s) if s.contains("b.Save(\"/b.kicad_pcb\")")));
    match job.after_import(0, "") {
        Action::Check(args) => assert_eq!(
            args,
            vec!["pcb", "drc", "--output", "/t.json", "--format", "json", "--severity-error", "/b.kicad_pcb"]
        ),
        other => panic!("{other:?}"),
    }
    assert!(matches!(job.end("x", "", None), Action::Show { board, .. } if board == "/b.kicad_pcb"));
    let copy = routing_job(false);
    assert!(matches!(copy.end("x", "", None), Action::Show { board, .. } if board == "/t.kicad_pcb"));
}

#[test]
fn routing_stops_where_a_step_fails() {
    let job = routing_job(true);
    let told = |a: Action| match a {
        Action::Fail(why) => why,
        other => panic!("{other:?}"),
    };
    assert!(told(job.begin(false)).starts_with("FreeRouting JAR not found at /r.jar.\nDownload"));
    assert_eq!(told(job.after_export(1, true, "bad")), "DSN export failed:\nbad");
    assert_eq!(told(job.after_export(0, false, "")), "DSN export failed:\n");
    assert_eq!(told(job.after_routing(false, "log")), "FreeRouting did not produce a SES file.\nLog:\nlog");
    assert_eq!(told(job.after_import(2, "why")), "SES import failed:\nwhy");
}

#[test]
fn nets_are_escaped_as_json() {
    let list = vec![pin("R\u{1f}1", "\t1", "N\"\\é")];
    assert_eq!(write_nets(&list), "{\"R\\u001f1\":{\"\\t1\":\"N\\\"\\\\é\"}}");
}
