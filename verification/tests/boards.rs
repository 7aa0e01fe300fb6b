use kicad2print::anchors::{collect_pad_positions, footprint_turns};
use kicad2print::cleanup::coord_key;
use kicad2print::clearance::{
    check_trace_clearance, compute_clearance, query_pads_in_region, query_traces_in_region, Proposal,
};
use kicad2print::connect::{check_pad_connectivity, parse_pcb_vias, verify_connectivity};
use kicad2print::footprints::{extract_at, find_footprint_blocks};
use kicad2print::graphics::{cleanup_traces, describe_deletion, region_of};
use kicad2print::insert::{add_trace, TraceAddition};
use kicad2print::lookup::{grep_kicad_file, patch_kicad_file, Patch};
use kicad2print::pads::{list_nets, parse_pcb_pads, place_pad, PcbPad};
use kicad2print::pcb::{CopperLayer, CutoutShape, PadShape, PcbData, Point2};
use kicad2print::reading::{board_items, part_angles, read_board, BoardError};
use kicad2print::rings::{join_lines, tell_apart};
use kicad2print::scaling::{scale_board, scale_length};
use kicad2print::spots::extract_pad_positions;
use kicad2print::traces::{
    delete_traces, parse_pcb_segments, segment_bbox_overlaps_region, PcbSegment, TraceDeletion,
    TraceFilter,
};

fn mm(v: f64) -> i64 {
    (v * 1_000_000.0).round() as i64
}

/// The pads of a board whose footprints are not turned.
fn pads_of(content: &str) -> Vec<PcbPad> {
    parse_pcb_pads(content)
        .into_iter()
        .map(|raw| place_pad(raw, 1_000_000_000, 0).expect("a place in range"))
        .collect()
}

fn sample_pcb_with_trace() -> String {
    "\
(kicad_pcb
\t(segment
\t\t(start 10 10)
\t\t(end 20 10)
\t\t(width 0.4)
\t\t(layer \"F.Cu\")
\t\t(net \"TX\")
\t)
)
"
    .to_string()
}

fn crossing<'a>(layer: &'a str, net: &'a str) -> Proposal<'a> {
    Proposal {
        from: (mm(15.0), mm(5.0)),
        to: (mm(15.0), mm(15.0)),
        layer,
        width: mm(0.4),
        clearance: mm(0.1),
        net,
    }
}

#[test]
fn parse_pcb_segments_finds_tab_indented_segment_with_net_and_width() {
    let content = sample_pcb_with_trace();
    let segs = parse_pcb_segments(&content);
    assert_eq!(segs.len(), 1, "expected exactly one parsed segment");
    assert_eq!(segs[0].net, "TX");
    assert_eq!(segs[0].width, mm(0.4));
    assert_eq!(segs[0].layer, "F.Cu");
}

#[test]
fn compute_clearance_flags_different_net_same_layer_crossing() {
    let content = sample_pcb_with_trace();
    let (collisions, _warnings) =
        compute_clearance(&content, &vec![], &crossing("F.Cu", "DATA")).unwrap();
    assert!(
        !collisions.is_empty(),
        "expected a collision for a different-net trace crossing on the same layer"
    );
}

#[test]
fn compute_clearance_allows_same_net_t_junction() {
    let content = sample_pcb_with_trace();
    let (collisions, _warnings) =
        compute_clearance(&content, &vec![], &crossing("F.Cu", "TX")).unwrap();
    assert!(collisions.is_empty(), "same-net T-junction must not be flagged as a collision");
}

#[test]
fn compute_clearance_ignores_different_layer_traces() {
    let content = sample_pcb_with_trace();
    let (collisions, warnings) =
        compute_clearance(&content, &vec![], &crossing("B.Cu", "DATA")).unwrap();
    assert!(
        collisions.is_empty() && warnings.is_empty(),
        "different-layer traces must never collide"
    );
}

#[test]
fn compute_clearance_checks_two_unrouted_segments_against_each_other() {
    let content_two_unrouted = "\
(kicad_pcb
\t(segment
\t\t(start 10 10)
\t\t(end 20 10)
\t\t(width 0.4)
\t\t(layer \"F.Cu\")
\t\t(net \"\")
\t)
)
"
    .to_string();
    let (collisions, _warnings) =
        compute_clearance(&content_two_unrouted, &vec![], &crossing("F.Cu", "")).unwrap();
    assert!(
        !collisions.is_empty(),
        "two unrouted segments touching must still be flagged as a collision"
    );
}

#[test]
fn add_trace_check_true_refuses_on_collision_and_force_overrides() {
    let before = sample_pcb_with_trace();
    let refused = add_trace(&before, &vec![], &crossing("F.Cu", "DATA"), true, false, "id");
    assert!(matches!(refused, TraceAddition::Refused { .. }), "expected refusal on collision");
    match add_trace(&before, &vec![], &crossing("F.Cu", "DATA"), true, true, "id") {
        TraceAddition::Added { content, summary } => {
            assert_ne!(before, content, "file must change once force=true is set");
            assert_eq!(summary, "Added trace (15,5)→(15,15) on F.Cu width=0.4mm net=DATA");
        }
        _ => panic!("force=true must write despite the collision"),
    }
}

#[test]
fn add_trace_check_omitted_preserves_always_write_behavior() {
    let before = sample_pcb_with_trace();
    match add_trace(&before, &vec![], &crossing("F.Cu", "DATA"), false, false, "id") {
        TraceAddition::Added { content, .. } => {
            assert_ne!(before, content, "trace must be written when check is omitted")
        }
        _ => panic!("omitted check must never block a write"),
    }
}

#[test]
fn an_added_trace_is_read_back() {
    let before = sample_pcb_with_trace();
    let wanted = Proposal {
        from: (mm(-1.25), mm(0.000001)),
        to: (mm(7.0), mm(8.5)),
        layer: "B.Cu",
        width: mm(0.3),
        clearance: mm(0.1),
        net: "GND",
    };
    let content = match add_trace(&before, &vec![], &wanted, true, false, "id") {
        TraceAddition::Added { content, .. } => content,
        _ => panic!("nothing is in the way"),
    };
    let segs = parse_pcb_segments(&content);
    assert_eq!(segs.len(), 2);
    assert_eq!((segs[1].x1, segs[1].y1), (mm(-1.25), 1));
    assert_eq!((segs[1].x2, segs[1].y2), (mm(7.0), mm(8.5)));
    assert_eq!((segs[1].layer.as_str(), segs[1].net.as_str()), ("B.Cu", "GND"));
    assert_eq!(segs[1].width, mm(0.3));
}

#[test]
fn a_trace_out_of_reach_is_not_measured() {
    let far = Proposal { to: (mm(4_000.0), 0), ..crossing("F.Cu", "DATA") };
    let content = sample_pcb_with_trace();
    assert!(compute_clearance(&content, &vec![], &far).is_none());
    assert!(matches!(
        add_trace(&content, &vec![], &far, true, false, "id"),
        TraceAddition::Unmeasured
    ));
}

#[test]
fn a_clear_path_is_told_to_be_safe() {
    let content = sample_pcb_with_trace();
    let clear = Proposal { from: (0, 0), to: (mm(1.0), 0), ..crossing("F.Cu", "DATA") };
    let said = check_trace_clearance(&content, &vec![], &clear).unwrap();
    assert!(said.starts_with("Clearance check [CLEAR]: (0, 0)→(1, 0) on F.Cu w=0.400mm gap=0.100mm\n\n"));
    assert!(said.contains("Safe to route."));
    let said = check_trace_clearance(&content, &vec![], &crossing("F.Cu", "DATA")).unwrap();
    assert!(said.contains("[1 COLLISION(S)]"));
}

#[test]
fn segment_bbox_overlaps_region_basic_cases() {
    let seg = PcbSegment {
        x1: mm(10.0),
        y1: mm(10.0),
        x2: mm(20.0),
        y2: mm(10.0),
        layer: "F.Cu".into(),
        net: "TX".into(),
        width: mm(0.4),
    };
    assert!(segment_bbox_overlaps_region(&seg, 0, 0, mm(30.0), mm(30.0)));
    assert!(segment_bbox_overlaps_region(&seg, mm(15.0), mm(5.0), mm(25.0), mm(15.0)));
    assert!(!segment_bbox_overlaps_region(&seg, mm(50.0), mm(50.0), mm(60.0), mm(60.0)));
}

#[test]
fn query_traces_in_region_finds_and_filters_by_net_and_layer() {
    let content = sample_pcb_with_trace();
    let corner = (mm(30.0), mm(30.0));
    let text = query_traces_in_region(&content, (0, 0), corner, None, None);
    assert!(text.contains("TX"), "expected the TX trace in the region: {}", text);
    assert!(text.contains("Total: 1 traces"), "expected exactly one match: {}", text);
    let text = query_traces_in_region(&content, (0, 0), corner, None, Some("GND"));
    assert!(
        text.contains("No traces in region"),
        "expected no matches for a non-matching net filter: {}",
        text
    );
}

fn sample_pcb_with_layered_pads() -> String {
    "\
(kicad_pcb
\t(footprint \"Fp\"
\t\t(property \"Reference\" \"U1\" (at 0 0 0))
\t\t(at 0 0)
\t\t(pad \"1\" smd rect (at 5 5) (size 1 1) (layers \"F.Cu\" \"F.Paste\" \"F.Mask\") (net \"A\"))
\t\t(pad \"2\" smd rect (at 6 5) (size 1 1) (layers \"B.Cu\" \"B.Paste\" \"B.Mask\") (net \"B\"))
\t\t(pad \"3\" thru_hole circle (at 7 5) (size 1 1) (drill 0.5) (layers \"*.Cu\" \"*.Mask\") (net \"C\"))
\t)
)
"
    .to_string()
}

#[test]
fn query_pads_in_region_layer_filter_excludes_non_matching_smd_pads() {
    let pads = pads_of(&sample_pcb_with_layered_pads());
    let corner = (mm(10.0), mm(10.0));
    let text = query_pads_in_region(&pads, (0, 0), corner, Some("F.Cu"));
    assert!(text.contains("U1         1"), "F.Cu pad should match: {}", text);
    assert!(text.contains("U1         3"), "THT pad should match any layer filter: {}", text);
    assert!(
        !text.contains("U1         2"),
        "B.Cu-only pad must not match an F.Cu filter: {}",
        text
    );
    let text = query_pads_in_region(&pads, (0, 0), corner, None);
    assert!(text.contains("Total: 3 pads"), "expected all 3 pads with no filter: {}", text);
}

#[test]
fn nets_are_listed_with_their_pads() {
    let text = list_nets("b.kicad_pcb", &sample_pcb_with_layered_pads());
    assert!(text.starts_with("Nets in b.kicad_pcb:\n\n"));
    assert!(text.contains("\"A\""));
    assert!(text.contains("U1/3"));
    assert!(text.ends_with("\nTotal: 3 nets across 3 pads\n"));
}

fn sample_pcb_two_traces() -> String {
    "\
(kicad_pcb
\t(segment
\t\t(start 10 10)
\t\t(end 20 10)
\t\t(width 0.4)
\t\t(layer \"F.Cu\")
\t\t(net \"TX\")
\t\t(uuid \"tx-uuid-1234\")
\t)
\t(segment
\t\t(start 50 50)
\t\t(end 60 50)
\t\t(width 0.4)
\t\t(layer \"B.Cu\")
\t\t(net \"GND\")
\t\t(uuid \"gnd-uuid-5678\")
\t)
)
"
    .to_string()
}

fn filter<'a>(net: Option<&'a str>, uuid: Option<&'a str>) -> TraceFilter<'a> {
    TraceFilter { net, layer: None, uuid, region: None }
}

#[test]
fn delete_trace_by_net_removes_only_matching_net() {
    let done = delete_traces(&sample_pcb_two_traces(), &filter(Some("TX"), None), false);
    let text = describe_deletion(&done);
    assert!(text.contains("Removed 1 trace segment"), "expected exactly 1 removed: {}", text);
    match done {
        TraceDeletion::Removed { content: remaining, .. } => {
            assert!(!remaining.contains("\"TX\""), "TX segment should be gone");
            assert!(remaining.contains("\"GND\""), "GND segment should remain untouched");
        }
        _ => panic!("a trace goes"),
    }
}

#[test]
fn delete_trace_dry_run_reports_without_writing() {
    let done = delete_traces(&sample_pcb_two_traces(), &filter(Some("TX"), None), true);
    let text = describe_deletion(&done);
    assert!(text.contains("DRY RUN"), "expected a dry-run report: {}", text);
    assert!(text.contains("net=TX"), "expected the match description to mention the net: {}", text);
    assert!(matches!(done, TraceDeletion::Preview { .. }), "dry_run must not modify the file");
    assert_eq!(
        text,
        "DRY RUN — would remove 1 trace segment(s), nothing written:\n  net=TX layer=F.Cu  (10.000,10.000)→(20.000,10.000)"
    );
}

#[test]
fn delete_trace_by_uuid_removes_exactly_one() {
    let done = delete_traces(&sample_pcb_two_traces(), &filter(None, Some("gnd-uuid-5678")), false);
    let text = describe_deletion(&done);
    assert!(text.contains("Removed 1 trace segment"), "expected exactly 1 removed by uuid: {}", text);
    match done {
        TraceDeletion::Removed { content: remaining, .. } => {
            assert!(!remaining.contains("gnd-uuid-5678"));
            assert!(remaining.contains("tx-uuid-1234"), "TX segment should remain untouched");
        }
        _ => panic!("a trace goes"),
    }
}

#[test]
fn delete_trace_rejects_call_with_no_filters() {
    let done = delete_traces(&sample_pcb_two_traces(), &filter(None, None), false);
    assert!(
        matches!(done, TraceDeletion::NoCondition),
        "expected an error when no filter is provided"
    );
    assert_eq!(
        describe_deletion(&done),
        "Provide at least one filter: net, layer, uuid, or all four of x1/y1/x2/y2"
    );
}

#[test]
fn delete_trace_by_region_only_removes_overlapping_segment() {
    let region = region_of(Some(0), Some(0), Some(mm(30.0)), Some(mm(30.0)));
    let wanted = TraceFilter { net: None, layer: None, uuid: None, region };
    let done = delete_traces(&sample_pcb_two_traces(), &wanted, false);
    let text = describe_deletion(&done);
    assert!(text.contains("Removed 1 trace segment"), "expected exactly 1 removed by region: {}", text);
    match done {
        TraceDeletion::Removed { content: remaining, .. } => {
            assert!(!remaining.contains("\"TX\""), "TX segment inside the region should be gone");
            assert!(remaining.contains("\"GND\""), "GND segment outside the region should remain");
        }
        _ => panic!("a trace goes"),
    }
}

#[test]
fn nothing_to_delete_is_told() {
    let done = delete_traces(&sample_pcb_two_traces(), &filter(Some("CLK"), None), false);
    assert_eq!(describe_deletion(&done), "No matching traces found; nothing removed.");
}

#[test]
fn a_region_needs_all_four_sides() {
    assert!(region_of(Some(1), Some(2), Some(3), None).is_none());
    assert_eq!(
        region_of(Some(5), Some(2), Some(3), Some(9)),
        region_of(Some(3), Some(9), Some(5), Some(2))
    );
    let r = region_of(Some(5), Some(2), Some(3), Some(9)).unwrap();
    assert_eq!((r.x_min, r.y_min, r.x_max, r.y_max), (3, 2, 5, 9));
}

#[test]
fn coord_key_absorbs_submicron_drift_but_not_real_separation() {
    assert_eq!(coord_key(mm(10.0)), coord_key(mm(10.0 + 0.0000003)));
    assert_ne!(coord_key(mm(10.0)), coord_key(mm(10.05)));
}

fn two_pads() -> Vec<PcbPad> {
    let pad = |reference: &str, x: f64| PcbPad {
        reference: reference.into(),
        pad_num: "1".into(),
        net: "TX".into(),
        x: mm(x),
        y: mm(10.0),
        width: mm(1.7),
        height: mm(1.7),
        is_thru_hole: true,
        layers: vec!["F.Cu".to_string()],
    };
    vec![pad("U1", 10.0), pad("U2", 20.0)]
}

#[test]
fn check_pad_connectivity_no_longer_false_negatives_on_submicron_drift() {
    let segments = vec![PcbSegment {
        x1: mm(10.0 + 0.0000004),
        y1: mm(10.0),
        x2: mm(20.0 - 0.0000004),
        y2: mm(10.0),
        layer: "F.Cu".into(),
        net: "TX".into(),
        width: mm(0.4),
    }];
    let result = check_pad_connectivity(&two_pads(), &segments, &vec![], "U1", "1", "U2", "1");
    assert_eq!(result, Ok(true), "sub-micron drift must not cause a false DISCONNECTED result");
}

#[test]
fn check_pad_connectivity_still_reports_disconnected_when_truly_unrouted() {
    let result = check_pad_connectivity(&two_pads(), &vec![], &vec![], "U1", "1", "U2", "1");
    assert_eq!(result, Ok(false), "genuinely unrouted pads must still report DISCONNECTED");
}

#[test]
fn an_unknown_pad_is_an_error_of_the_connectivity_check() {
    let result = check_pad_connectivity(&two_pads(), &vec![], &vec![], "U1", "9", "U2", "1");
    assert!(result.is_err());
    let said = verify_connectivity(&two_pads(), &vec![], &vec![], "U1", "9", "U2", "1");
    assert!(said.starts_with("Error: "));
}

#[test]
fn a_via_joins_the_layers() {
    let content = "(kicad_pcb\n\t(via (at 15 10) (size 0.8) (drill 0.4) (layers \"F.Cu\" \"B.Cu\"))\n)";
    let vias = parse_pcb_vias(content);
    assert_eq!(vias.len(), 1);
    let half = |x1: f64, x2: f64, layer: &str| PcbSegment {
        x1: mm(x1),
        y1: mm(10.0),
        x2: mm(x2),
        y2: mm(10.0),
        layer: layer.into(),
        net: "TX".into(),
        width: mm(0.4),
    };
    let segments = vec![half(10.0, 15.0, "F.Cu"), half(15.0, 20.0, "B.Cu")];
    assert_eq!(
        check_pad_connectivity(&two_pads(), &segments, &vias, "U1", "1", "U2", "1"),
        Ok(true)
    );
    assert_eq!(
        check_pad_connectivity(&two_pads(), &segments, &vec![], "U2", "1", "U1", "1"),
        Ok(false)
    );
}

#[test]
fn traces_that_lead_nowhere_are_cleaned_up() {
    let content = "\
(kicad_pcb
\t(segment (start 10 10) (end 20 10) (width 0.4) (layer \"F.Cu\") (net \"TX\"))
\t(segment (start 50 50) (end 60 50) (width 0.4) (layer \"B.Cu\") (net \"GND\"))
)
";
    let (new, said) = cleanup_traces(content, None, &vec![], true);
    assert_eq!(new, None);
    assert!(said.contains("would be removed on layers:\n"), "{}", said);
    let pads = vec![(mm(10.0), mm(10.0)), (mm(20.0), mm(10.0))];
    let (new, said) = cleanup_traces(content, Some("F.Cu, B.Cu"), &pads, false);
    assert!(new.is_some());
    assert!(said.contains("Total segments: 2 → 1"), "{}", said);
    assert!(said.contains("  B.Cu: 1\n"));
    let (new, said) = cleanup_traces(content, Some("In1.Cu"), &vec![], false);
    assert_eq!(new, None);
    assert!(said.contains("  (none)\n"));
}

#[test]
fn patch_kicad_file_context_preview_shows_real_edit_location() {
    let content = "\
(kicad_pcb
\t(footprint \"A\"
\t\t(pad \"1\" thru_hole circle
\t\t\t(at 1 1)
\t\t\t(uuid \"aaaa\")
\t\t)
\t)
\t(footprint \"B\"
\t\t(pad \"1\" thru_hole circle
\t\t\t(at 99 99)
\t\t\t(uuid \"bbbb-unique\")
\t\t)
\t)
)
";
    let old_string = "\t\t(pad \"1\" thru_hole circle\n\t\t\t(at 99 99)\n\t\t\t(uuid \"bbbb-unique\")";
    let new_string = "\t\t(pad \"1\" thru_hole circle\n\t\t\t(at 42 42)\n\t\t\t(uuid \"bbbb-unique\")";
    match patch_kicad_file(content, "t.kicad_pcb", old_string, new_string, false) {
        Patch::Done { content: new, summary: text } => {
            assert!(
                text.contains("(at 42 42)"),
                "preview should show the actual edited block (footprint B, now at 42 42): {}",
                text
            );
            assert!(
                !text.contains("(at 1 1)"),
                "preview should NOT show footprint A's untouched block: {}",
                text
            );
            assert_eq!(new, content.replace("(at 99 99)", "(at 42 42)"));
        }
        _ => panic!("patch_kicad_file returned an error"),
    }
}

#[test]
fn a_patch_must_be_clear() {
    match patch_kicad_file("a b a", "f", "a", "c", false) {
        Patch::Ambiguous { .. } => {}
        _ => panic!("the text occurs twice"),
    }
    match patch_kicad_file("a b a", "f", "a", "c", true) {
        Patch::Done { content, .. } => assert_eq!(content, "c b c"),
        _ => panic!("every occurrence is replaced"),
    }
    assert!(matches!(patch_kicad_file("a b a", "f", "x", "c", true), Patch::NotFound { .. }));
}

#[test]
fn a_search_shows_lines_around_each_place() {
    let text = grep_kicad_file("one\ntwo\nthree\nfour\n", "f.kicad_pcb", "three", 1, 20);
    assert!(text.contains("two") && text.contains("three") && text.contains("four"));
    assert!(!text.contains("one"));
}

const TURNED_PART: &str = "(kicad_pcb\n  (footprint \"R_0402\"\n    (at 10 20 90)\n    (property \"Reference\" \"R1\")\n    (pad \"1\" smd rect (at 1 0) (size 0.5 0.5) (layers \"F.Cu\") (net \"A\"))\n    (pad \"2\" smd rect (at -1 0.5 90) (size 0.5 0.5) (layers \"F.Cu\") (net \"B\"))\n    (pad 3 smd rect (at 0 2) (size 1 1))\n    (pad 4 smd rect (size 1 1))\n  )\n  (footprint \"C_0402\"\n    (property \"Reference\" \"C1\")\n    (pad \"1\" smd rect (at 1 2) (size 0.5 0.5) (layers \"F.Cu\"))\n  )\n)\n";

#[test]
fn anchors_are_the_pads_and_where_the_parts_stand() {
    assert_eq!(footprint_turns(TURNED_PART), vec![mm(90.0), 0]);
    let turns = vec![(0, 1_000_000_000), (1_000_000_000, 0)];
    let anchors = collect_pad_positions(TURNED_PART, &turns);
    let expected = vec![
        (mm(10.0), mm(21.0)),
        (mm(9.5), mm(19.0)),
        (mm(8.0), mm(20.0)),
        (mm(10.0), mm(20.0)),
        (mm(1.0), mm(2.0)),
        (0, 0),
    ];
    assert_eq!(anchors, expected);
}

#[test]
fn a_board_without_parts_has_no_anchors() {
    assert!(footprint_turns("(kicad_pcb\n)\n").is_empty());
    assert!(collect_pad_positions("(kicad_pcb\n)\n", &vec![]).is_empty());
}

#[test]
fn a_pad_is_placed_turned_about_its_part() {
    let raw = parse_pcb_pads(TURNED_PART);
    assert_eq!(raw.len(), 3);
    let pads: Vec<PcbPad> =
        raw.into_iter().filter_map(|p| place_pad(p, 0, 1_000_000_000)).collect();
    assert_eq!((pads[0].x, pads[0].y), (mm(10.0), mm(21.0)));
    assert_eq!((pads[1].x, pads[1].y), (mm(9.5), mm(19.0)));
    assert_eq!((pads[1].width, pads[1].net.as_str()), (mm(0.5), "B"));
    assert_eq!((pads[2].x, pads[2].y), (mm(-2.0), mm(1.0)));
}

#[test]
fn a_pad_out_of_range_has_no_place() {
    let board = "(kicad_pcb\n  (footprint \"F\"\n    (at 9000000000000 0)\n    (property \"Reference\" \"R1\")\n    (pad \"1\" smd rect (at 9000000000000 0))\n  )\n)\n";
    let raw = parse_pcb_pads(board).pop().expect("one pad");
    assert!(place_pad(raw, 1_000_000_000, 0).is_none());
    let anchors = collect_pad_positions(board, &vec![(1_000_000_000, 0)]);
    assert_eq!(anchors, vec![(9_000_000_000_000_000_000, 0)]);
}

#[test]
fn footprints_are_found_by_their_references() {
    let table = find_footprint_blocks(TURNED_PART);
    let names: Vec<&str> = table.entries.iter().map(|e| e.0.as_str()).collect();
    assert_eq!(names, vec!["R1", "C1"]);
    let span = &table.entries[0].1;
    let block = &TURNED_PART[span.start..span.end];
    assert!(block.starts_with("(footprint \"R_0402\""));
    assert!(block.ends_with("(size 1 1))\n  )"));
    let placed = extract_at(block).expect("a place");
    assert_eq!((placed.0.as_str(), placed.1.as_str(), placed.2.as_str()), ("10", "20", "90"));
    let pads = extract_pad_positions(block, 0, 1_000_000_000);
    assert_eq!(pads.len(), 2);
    assert_eq!((pads[1].x, pads[1].y), (mm(9.5), mm(19.0)));
    assert_eq!((pads[1].number.as_str(), pads[1].layer.as_str()), ("2", "F.Cu"));
}

const WHOLE_BOARD: &str = "(kicad_pcb (version 20240108)\n  (gr_line (start 0 0) (end 40 0) (layer \"Edge.Cuts\"))\n  (gr_line (start 40 30) (end 0 30) (layer \"Edge.Cuts\"))\n  (gr_line (start 40 0) (end 40 30) (layer \"Edge.Cuts\"))\n  (gr_line (start 0 30) (end 0 0.0004) (layer \"Edge.Cuts\"))\n  (gr_line (start 1 1) (end 2 2) (layer \"F.SilkS\"))\n  (gr_rect (start 5 5) (end 8 9) (layer \"Edge.Cuts\"))\n  (gr_circle (center 20 10) (end 23 14) (layer \"Edge.Cuts\"))\n  (segment (start 1 2) (end 3 4) (width 0.25) (layer \"F.Cu\") (net 1))\n  (segment (start 5 6) (end 7 8) (width 0.5) (layer \"B.Cu\") (net 1))\n  (segment (start 5 6) (end 7 8) (width 0.5) (layer \"In1.Cu\") (net 1))\n  (arc (start 1 0) (mid 2 1) (end 3 0) (width 0.25) (layer \"F.Cu\"))\n  (via (at 9 9) (size 0.8) (drill 0.4) (net 2 \"GND\"))\n  (footprint \"Lib:J\"\n    (at 10 20 90)\n    (fp_text reference \"J1\" (at 0 0))\n    (property \"Value\" \"Socket\")\n    (fp_rect (start -1 -2) (end 1 4) (layer \"Edge.Cuts\"))\n    (fp_circle (center 3 0) (end 3 5) (layer \"Edge.Cuts\"))\n    (pad \"1\" thru_hole oval (at 2 1 90) (size 1.5 2.5) (drill oval 0.8 1.2) (layers \"*.Cu\" \"*.Mask\") (net 2 \"GND\"))\n    (pad \"2\" smd roundrect (at -2 0) (size 1 2) (layers \"B.Cu\"))\n  )\n)\n";

fn whole_board() -> PcbData {
    let items = board_items(WHOLE_BOARD).expect("a board");
    assert_eq!(part_angles(&items), vec![mm(90.0)]);
    read_board(&items, &vec![(0, 1_000_000_000)])
}

fn at(x: f64, y: f64) -> Point2 {
    Point2 { x: mm(x), y: mm(y) }
}

#[test]
fn a_board_is_read_with_lengths_counted_upwards() {
    let pcb = whole_board();
    assert_eq!(pcb.traces_fcu.len(), 1);
    assert_eq!(pcb.traces_fcu[0].start, at(1.0, -2.0));
    assert_eq!(pcb.traces_fcu[0].end, at(3.0, -4.0));
    assert_eq!(pcb.traces_fcu[0].width, mm(0.25));
    assert_eq!(pcb.traces_bcu.len(), 1);
    assert_eq!(pcb.traces_bcu[0].layer, CopperLayer::BCu);
    assert_eq!(pcb.arc_traces.len(), 1);
    assert_eq!(pcb.arc_traces[0].mid, at(2.0, -1.0));
    assert_eq!(pcb.vias.len(), 1);
    assert_eq!(pcb.vias[0].center, at(9.0, -9.0));
    assert_eq!(pcb.vias[0].drill, mm(0.4));
    assert_eq!(pcb.vias[0].net_name.as_deref(), Some("GND"));
}

#[test]
fn pads_of_a_board_turn_with_their_part() {
    let pcb = whole_board();
    let part = &pcb.footprints[0];
    assert_eq!((part.reference.as_str(), part.value.as_str()), ("J1", "Socket"));
    assert_eq!(part.position, at(10.0, -20.0));
    assert_eq!(pcb.pads.len(), 2);
    let pad = &pcb.pads[0];
    assert_eq!(pad.center, at(11.0, -18.0));
    assert_eq!(pad.shape, PadShape::Oval);
    assert_eq!((pad.width, pad.height), (mm(1.5), mm(2.5)));
    assert_eq!((pad.drill, pad.drill_h), (mm(0.8), mm(1.2)));
    assert_eq!((pad.on_fcu, pad.on_bcu, pad.rotation), (true, true, mm(90.0)));
    let other = &pcb.pads[1];
    assert_eq!(other.center, at(10.0, -22.0));
    assert_eq!((other.on_fcu, other.on_bcu, other.drill), (false, true, 0));
    assert_eq!(other.shape, PadShape::RoundRect);
    assert_eq!(other.net_name, None);
}

#[test]
fn the_largest_ring_is_the_outline_and_the_rest_are_openings() {
    let pcb = whole_board();
    let outline = pcb.outline.as_ref().expect("an outline");
    assert_eq!(
        outline,
        &vec![at(0.0, -30.0), at(40.0, -30.0), at(40.0, 0.0), at(0.0, 0.0)]
    );
    assert_eq!(
        pcb.cutouts,
        vec![
            CutoutShape::Circle { center: at(20.0, -10.0), radius: mm(5.0) },
            CutoutShape::Rect {
                center: at(11.0, -20.0),
                half_width: mm(1.0),
                half_height: mm(3.0),
                rotation: mm(90.0),
            },
            CutoutShape::Circle { center: at(10.0, -17.0), radius: mm(5.0) },
            CutoutShape::Rect {
                center: at(6.5, -7.0),
                half_width: mm(1.5),
                half_height: mm(2.0),
                rotation: 0,
            },
        ]
    );
}

#[test]
fn a_file_without_a_board_is_refused() {
    assert!(matches!(board_items("(kicad_sch)"), Err(BoardError::NoBoard)));
    assert!(matches!(board_items("(kicad_pcb (net"), Err(BoardError::Brackets)));
    let pcb = read_board(&board_items("(kicad_pcb)").expect("a board"), &vec![]);
    assert!(pcb.outline.is_none() && pcb.cutouts.is_empty());
}

#[test]
fn lines_join_in_any_order_and_direction() {
    let lines = vec![
        (at(0.0, 0.0), at(1.0, 0.0)),
        (at(0.0, 1.0), at(1.0, 0.0)),
        (at(5.0, 5.0), at(6.0, 6.0)),
        (at(0.0, 1.0), at(0.0, 0.0)),
    ];
    let rings = join_lines(lines);
    assert_eq!(
        rings,
        vec![
            vec![at(0.0, 0.0), at(1.0, 0.0), at(0.0, 1.0)],
            vec![at(5.0, 5.0), at(6.0, 6.0)],
        ]
    );
    let (outline, openings) = tell_apart(rings);
    assert_eq!(outline.map(|r| r.len()), Some(3));
    assert!(openings.is_empty());
}

#[test]
fn a_board_is_scaled_in_every_length() {
    let pcb = whole_board();
    let twice = scale_board(&pcb, mm(2.5));
    assert_eq!(twice.outline.as_ref().unwrap()[1], at(100.0, -75.0));
    assert_eq!(twice.traces_fcu[0].end, at(7.5, -10.0));
    assert_eq!(twice.traces_fcu[0].width, mm(0.625));
    assert_eq!(twice.vias[0].drill, mm(1.0));
    assert_eq!(twice.vias[0].net_name.as_deref(), Some("GND"));
    assert_eq!(twice.footprints[0].pads[0].center, at(27.5, -45.0));
    assert_eq!(twice.pads[0].rotation, pcb.pads[0].rotation);
    assert_eq!(twice.cutouts[0], CutoutShape::Circle { center: at(50.0, -25.0), radius: mm(12.5) });
    let same = scale_board(&pcb, mm(1.0));
    assert_eq!(same.outline, pcb.outline);
    assert_eq!(same.cutouts, pcb.cutouts);
}

#[test]
fn lengths_are_scaled_to_the_nearest() {
    assert_eq!(scale_length(3, 500_000), 2);
    assert_eq!(scale_length(-3, 500_000), -2);
    assert_eq!(scale_length(-1, 400_000), 0);
    assert_eq!(scale_length(i64::MAX, 2_000_000), i64::MAX);
    assert_eq!(scale_length(i64::MIN, 2_000_000), i64::MIN);
}

#[test]
fn vias_stand_two_spaces_deep_too() {
    let board = "(kicad_pcb\n  (via (at 1 2) (size 0.8) (layers \"F.Cu\" \"B.Cu\"))\n\t(via\n\t\t(at 3 4)\n\t\t(layers \"F.Cu\" \"B.Cu\")\n\t)\n\t(viasomething (at 5 6))\n\t(via(at 7 8)(layers \"F.Cu\"))\n)\n";
    let vias = parse_pcb_vias(board);
    assert_eq!(vias.len(), 3);
    assert_eq!((vias[2].x, vias[2].y), (mm(7.0), mm(8.0)));
    assert_eq!((vias[0].x, vias[0].y), (mm(1.0), mm(2.0)));
    assert_eq!((vias[1].x, vias[1].y), (mm(3.0), mm(4.0)));
    assert_eq!(vias[1].layers, vec!["F.Cu".to_string(), "B.Cu".to_string()]);
}
