//! The scripts that other programs run, and what is told of their answers.

use crate::json::{
    as_count, as_items, as_text_or, count_or_zero, items_of, json_document, json_found, json_literal,
    get_member, member, opt_text, read_json, read_said, said_of, text_or, write_literal, JsonModel, JsonValue,
};
use crate::netlist::{pin_net, pin_net_list, PinNet};
use crate::pads::{has_text, length_of};
use crate::decimal::parse_nanometres;
use crate::strings::{decimal, join, joined, lines, lines_of, number, sort, sorted, strings, texts};
use crate::sync::{debug_text, quoted_text};
use crate::text::{
    contains, extend, extend_str, find, find_from, has_str, lemma_find_is_first, same_str, to_chars,
    to_text,
};
use crate::traces::{trim, trimmed};
use crate::units::{extend_fixed, extend_plain, fixed, plain};
use vstd::prelude::*;
use vstd::slice::slice_subrange;

verus! {

/// The script that puts another footprint in the place of a part.
pub open spec fn replace_script(pcb: Seq<char>, reference: Seq<char>, keep_pos: Seq<char>, library: Seq<char>, footprint: Seq<char>) -> Seq<char> {
    "\nimport pcbnew, json, sys\nb = pcbnew.LoadBoard("@ + pcb
        + ")\nold = b.FindFootprintByReference("@ + reference
        + ")\nif old is None:\n    print(json.dumps({\"error\": \"reference not found\"})); sys.exit(1)\nkeep_pos = "@
        + keep_pos
        + "\npos = old.GetPosition() if keep_pos else pcbnew.VECTOR2I(0, 0)\nrot = old.GetOrientation() if keep_pos else pcbnew.EDA_ANGLE(0, pcbnew.DEGREES_T)\nval = old.GetValue()\n# Capture old pad nets by pad number before the old footprint is removed, so the\n# new footprint (freshly loaded from the library, which carries no net data at\n# all) can have matching-numbered pads reconnected automatically — mirrors what\n# KiCad's own \"Change footprint\" GUI action does.\nold_nets = {p.GetNumber(): p.GetNetname() for p in old.Pads() if p.GetNetname()}\nnew_fp = pcbnew.FootprintLoad("@
        + library + ", "@ + footprint
        + ")\nif new_fp is None:\n    print(json.dumps({\"error\": \"footprint not found in library\"})); sys.exit(1)\nnew_fp.SetReference("@
        + reference
        + ")\nnew_fp.SetValue(val)\nnew_fp.SetPosition(pos)\nnew_fp.SetOrientation(rot)\nb.Remove(old)\nb.Add(new_fp)\ncarried = []\nuncarried_old = []\nfor pad in new_fp.Pads():\n    net_name = old_nets.get(pad.GetNumber())\n    if net_name:\n        net_info = b.FindNet(net_name)\n        if net_info is not None:\n            pad.SetNet(net_info)\n            carried.append(pad.GetNumber())\nfor num, net_name in old_nets.items():\n    if num not in carried:\n        uncarried_old.append({\"number\": num, \"net\": net_name})\nb.Save("@
        + pcb
        + ")\npads = [{\"number\": p.GetNumber(),\n          \"x\": round(pcbnew.ToMM(p.GetPosition().x), 6),\n          \"y\": round(pcbnew.ToMM(p.GetPosition().y), 6),\n          \"layer\": p.GetLayerName(),\n          \"net\": p.GetNetname()} for p in new_fp.Pads()]\nprint(json.dumps({\"ok\": True, \"pads\": pads, \"old_pad_count\": len(old_nets), \"carried_count\": len(carried), \"uncarried_old\": uncarried_old}))\n"@
}

fn write_replace_script(pcb: &str, reference: &str, keep_pos: &str, library: &str, footprint: &str) -> (out: String)
    ensures
        out@ == replace_script(pcb@, reference@, keep_pos@, library@, footprint@),
{
    let mut out = to_chars("\nimport pcbnew, json, sys\nb = pcbnew.LoadBoard(");
    extend_str(&mut out, pcb);
    extend_str(&mut out, ")\nold = b.FindFootprintByReference(");
    extend_str(&mut out, reference);
    extend_str(&mut out, ")\nif old is None:\n    print(json.dumps({\"error\": \"reference not found\"})); sys.exit(1)\nkeep_pos = ");
    extend_str(&mut out, keep_pos);
    extend_str(&mut out, "\npos = old.GetPosition() if keep_pos else pcbnew.VECTOR2I(0, 0)\nrot = old.GetOrientation() if keep_pos else pcbnew.EDA_ANGLE(0, pcbnew.DEGREES_T)\nval = old.GetValue()\n# Capture old pad nets by pad number before the old footprint is removed, so the\n# new footprint (freshly loaded from the library, which carries no net data at\n# all) can have matching-numbered pads reconnected automatically — mirrors what\n# KiCad's own \"Change footprint\" GUI action does.\nold_nets = {p.GetNumber(): p.GetNetname() for p in old.Pads() if p.GetNetname()}\nnew_fp = pcbnew.FootprintLoad(");
    extend_str(&mut out, library);
    extend_str(&mut out, ", ");
    extend_str(&mut out, footprint);
    extend_str(&mut out, ")\nif new_fp is None:\n    print(json.dumps({\"error\": \"footprint not found in library\"})); sys.exit(1)\nnew_fp.SetReference(");
    extend_str(&mut out, reference);
    extend_str(&mut out, ")\nnew_fp.SetValue(val)\nnew_fp.SetPosition(pos)\nnew_fp.SetOrientation(rot)\nb.Remove(old)\nb.Add(new_fp)\ncarried = []\nuncarried_old = []\nfor pad in new_fp.Pads():\n    net_name = old_nets.get(pad.GetNumber())\n    if net_name:\n        net_info = b.FindNet(net_name)\n        if net_info is not None:\n            pad.SetNet(net_info)\n            carried.append(pad.GetNumber())\nfor num, net_name in old_nets.items():\n    if num not in carried:\n        uncarried_old.append({\"number\": num, \"net\": net_name})\nb.Save(");
    extend_str(&mut out, pcb);
    extend_str(&mut out, ")\npads = [{\"number\": p.GetNumber(),\n          \"x\": round(pcbnew.ToMM(p.GetPosition().x), 6),\n          \"y\": round(pcbnew.ToMM(p.GetPosition().y), 6),\n          \"layer\": p.GetLayerName(),\n          \"net\": p.GetNetname()} for p in new_fp.Pads()]\nprint(json.dumps({\"ok\": True, \"pads\": pads, \"old_pad_count\": len(old_nets), \"carried_count\": len(carried), \"uncarried_old\": uncarried_old}))\n");
    proof {
        assert(out@ =~= replace_script(pcb@, reference@, keep_pos@, library@, footprint@));
    }
    to_text(out.as_slice())
}

/// The script that puts pads on their nets.
pub open spec fn net_script(pcb: Seq<char>, nets: Seq<char>) -> Seq<char> {
    "\nimport pcbnew, json, sys\nboard = pcbnew.LoadBoard("@ + pcb
        + ")\npin_nets = json.loads("@ + nets
        + ")\n\n# Build ref → list of footprints. When there are duplicates (ghost from a failed\n# replace_footprint), keep all of them — assign nets to every instance so nothing\n# is left floating regardless of placement method.\nfps_by_ref = {}\nfor fp in board.GetFootprints():\n    fps_by_ref.setdefault(fp.GetReference(), []).append(fp)\n\nchanged = []\nfor ref, fp_list in fps_by_ref.items():\n    if ref not in pin_nets:\n        continue\n    for fp in fp_list:\n        for pad in fp.Pads():\n            pad_num = pad.GetNumber()\n            if pad_num not in pin_nets[ref]:\n                continue\n            net_name = pin_nets[ref][pad_num]\n            net = board.FindNet(net_name)\n            if net is None:\n                net = pcbnew.NETINFO_ITEM(board, net_name)\n                board.Add(net)\n            current = pad.GetNetname()\n            if current != net_name and (current == \"\" or current.startswith(\"unconnected-\")):\n                pad.SetNet(net)\n                changed.append(f\"{ref} pad {pad_num} → {net_name}\")\nboard.BuildListOfNets()\nboard.Save("@
        + pcb + ")\nprint(json.dumps({\"changed\": changed}))\n"@
}

fn write_net_script(pcb: &str, nets: &str) -> (out: String)
    ensures
        out@ == net_script(pcb@, nets@),
{
    let mut out = to_chars("\nimport pcbnew, json, sys\nboard = pcbnew.LoadBoard(");
    extend_str(&mut out, pcb);
    extend_str(&mut out, ")\npin_nets = json.loads(");
    extend_str(&mut out, nets);
    extend_str(&mut out, ")\n\n# Build ref → list of footprints. When there are duplicates (ghost from a failed\n# replace_footprint), keep all of them — assign nets to every instance so nothing\n# is left floating regardless of placement method.\nfps_by_ref = {}\nfor fp in board.GetFootprints():\n    fps_by_ref.setdefault(fp.GetReference(), []).append(fp)\n\nchanged = []\nfor ref, fp_list in fps_by_ref.items():\n    if ref not in pin_nets:\n        continue\n    for fp in fp_list:\n        for pad in fp.Pads():\n            pad_num = pad.GetNumber()\n            if pad_num not in pin_nets[ref]:\n                continue\n            net_name = pin_nets[ref][pad_num]\n            net = board.FindNet(net_name)\n            if net is None:\n                net = pcbnew.NETINFO_ITEM(board, net_name)\n                board.Add(net)\n            current = pad.GetNetname()\n            if current != net_name and (current == \"\" or current.startswith(\"unconnected-\")):\n                pad.SetNet(net)\n                changed.append(f\"{ref} pad {pad_num} → {net_name}\")\nboard.BuildListOfNets()\nboard.Save(");
    extend_str(&mut out, pcb);
    extend_str(&mut out, ")\nprint(json.dumps({\"changed\": changed}))\n");
    proof {
        assert(out@ =~= net_script(pcb@, nets@));
    }
    to_text(out.as_slice())
}

/// The script that hands a board to the router.
pub open spec fn export_script(path: Seq<char>, dsn: Seq<char>) -> Seq<char> {
    "\nimport pcbnew, sys\nb = pcbnew.LoadBoard("@ + path
        + ")\nb.BuildListOfNets()\nseen = set()\nfor fp in list(b.GetFootprints()):\n    ref = fp.GetReference()\n    if ref in seen:\n        b.Remove(fp)\n    else:\n        seen.add(ref)\nok = pcbnew.ExportSpecctraDSN(b, "@
        + dsn
        + ")\nif not ok:\n    print('DSN export failed', file=sys.stderr); sys.exit(1)\nprint('ok')\n"@
}

fn write_export_script(path: &str, dsn: &str) -> (out: String)
    ensures
        out@ == export_script(path@, dsn@),
{
    let mut out = to_chars("\nimport pcbnew, sys\nb = pcbnew.LoadBoard(");
    extend_str(&mut out, path);
    extend_str(&mut out, ")\nb.BuildListOfNets()\nseen = set()\nfor fp in list(b.GetFootprints()):\n    ref = fp.GetReference()\n    if ref in seen:\n        b.Remove(fp)\n    else:\n        seen.add(ref)\nok = pcbnew.ExportSpecctraDSN(b, ");
    extend_str(&mut out, dsn);
    extend_str(&mut out, ")\nif not ok:\n    print('DSN export failed', file=sys.stderr); sys.exit(1)\nprint('ok')\n");
    proof {
        assert(out@ =~= export_script(path@, dsn@));
    }
    to_text(out.as_slice())
}

/// The script that takes the routes into the board.
pub open spec fn import_script(path: Seq<char>, ses: Seq<char>, target: Seq<char>) -> Seq<char> {
    "import pcbnew\nb=pcbnew.LoadBoard("@ + path
        + ")\nbefore=len(b.GetTracks())\npcbnew.ImportSpecctraSES(b,"@ + ses
        + ")\nafter=len(b.GetTracks())\nb.Save("@ + target
        + ")\nprint(f'before={before} after={after}')"@
}

fn write_import_script(path: &str, ses: &str, target: &str) -> (out: String)
    ensures
        out@ == import_script(path@, ses@, target@),
{
    let mut out = to_chars("import pcbnew\nb=pcbnew.LoadBoard(");
    extend_str(&mut out, path);
    extend_str(&mut out, ")\nbefore=len(b.GetTracks())\npcbnew.ImportSpecctraSES(b,");
    extend_str(&mut out, ses);
    extend_str(&mut out, ")\nafter=len(b.GetTracks())\nb.Save(");
    extend_str(&mut out, target);
    extend_str(&mut out, ")\nprint(f'before={before} after={after}')");
    proof {
        assert(out@ =~= import_script(path@, ses@, target@));
    }
    to_text(out.as_slice())
}

/// The references among pins, each once, in the order in which they first come.
pub open spec fn pin_refs(list: Seq<(Seq<char>, Seq<char>, Seq<char>)>) -> Seq<Seq<char>>
    decreases list.len(),
{
    if list.len() == 0 {
        Seq::empty()
    } else {
        let front = pin_refs(list.drop_last());
        if front.contains(list.last().0) {
            front
        } else {
            front.push(list.last().0)
        }
    }
}

fn list_pin_refs(list: &Vec<PinNet>) -> (out: Vec<String>)
    ensures
        strings(out@) == pin_refs(pin_net_list(list@)),
{
    let ghost all = pin_net_list(list@);
    let mut out: Vec<String> = Vec::new();
    let mut i: usize = 0;
    proof {
        assert(all.take(0).len() == 0);
        assert(strings(out@) =~= Seq::empty());
    }
    while i < list.len()
        invariant
            i <= list@.len(),
            all == pin_net_list(list@),
            strings(out@) == pin_refs(all.take(i as int)),
        decreases list@.len() - i,
    {
        proof {
            assert(all.take(i + 1).drop_last() =~= all.take(i as int));
            assert(all.take(i + 1).last() == pin_net(list@[i as int]));
        }
        if !has_text(&out, &list[i].reference) {
            let ghost done = out@;
            let r = list[i].reference.clone();
            out.push(r);
            proof {
                assert(strings(out@) =~= strings(done).push(r@));
            }
        }
        i += 1;
    }
    proof {
        assert(all.take(all.len() as int) =~= all);
    }
    out
}

/// A member of an object.
pub open spec fn pair_text(key: Seq<char>, value: Seq<char>) -> Seq<char> {
    key + ":"@ + value
}

fn write_pair_text(key: &str, value: &str) -> (out: String)
    ensures
        out@ == pair_text(key@, value@),
{
    let mut out = to_chars(key);
    extend_str(&mut out, ":");
    extend_str(&mut out, value);
    proof {
        assert(out@ =~= pair_text(key@, value@));
    }
    to_text(out.as_slice())
}

/// An object.
pub open spec fn object_text(inside: Seq<char>) -> Seq<char> {
    "{"@ + inside + "}"@
}

fn write_object_text(inside: &str) -> (out: String)
    ensures
        out@ == object_text(inside@),
{
    let mut out = to_chars("{");
    extend_str(&mut out, inside);
    extend_str(&mut out, "}");
    proof {
        assert(out@ =~= object_text(inside@));
    }
    to_text(out.as_slice())
}

/// The pins of a part with their nets, as members of an object.
pub open spec fn pin_members(list: Seq<(Seq<char>, Seq<char>, Seq<char>)>, reference: Seq<char>) -> Seq<
    Seq<char>,
>
    decreases list.len(),
{
    if list.len() == 0 {
        Seq::empty()
    } else {
        let front = pin_members(list.drop_last(), reference);
        let p = list.last();
        if p.0 == reference {
            front.push(pair_text(json_literal(p.1), json_literal(p.2)))
        } else {
            front
        }
    }
}

fn list_pin_members(list: &Vec<PinNet>, reference: &str) -> (out: Vec<String>)
    ensures
        strings(out@) == pin_members(pin_net_list(list@), reference@),
{
    let ghost all = pin_net_list(list@);
    let mut out: Vec<String> = Vec::new();
    let mut i: usize = 0;
    proof {
        assert(all.take(0).len() == 0);
        assert(strings(out@) =~= Seq::empty());
    }
    while i < list.len()
        invariant
            i <= list@.len(),
            all == pin_net_list(list@),
            strings(out@) == pin_members(all.take(i as int), reference@),
        decreases list@.len() - i,
    {
        proof {
            assert(all.take(i + 1).drop_last() =~= all.take(i as int));
            assert(all.take(i + 1).last() == pin_net(list@[i as int]));
        }
        if same_str(list[i].reference.as_str(), reference) {
            let ghost done = out@;
            let key = write_literal(list[i].pin.as_str());
            let value = write_literal(list[i].net.as_str());
            let pair = write_pair_text(key.as_str(), value.as_str());
            out.push(pair);
            proof {
                assert(strings(out@) =~= strings(done).push(pair@));
            }
        }
        i += 1;
    }
    proof {
        assert(all.take(all.len() as int) =~= all);
    }
    out
}

/// A part with its pins, as a member of an object.
pub open spec fn part_member(list: Seq<(Seq<char>, Seq<char>, Seq<char>)>, reference: Seq<char>) -> Seq<
    char,
> {
    pair_text(json_literal(reference), object_text(joined(pin_members(list, reference), ","@)))
}

pub open spec fn part_members(
    list: Seq<(Seq<char>, Seq<char>, Seq<char>)>,
    refs: Seq<Seq<char>>,
) -> Seq<Seq<char>> {
    refs.map_values(|r: Seq<char>| part_member(list, r))
}

/// The nets of pins as a JSON object of objects: parts, pins, nets.
pub open spec fn nets_json(list: Seq<(Seq<char>, Seq<char>, Seq<char>)>) -> Seq<char> {
    object_text(joined(part_members(list, pin_refs(list)), ","@))
}

/// Writes the nets of pins as a JSON object of objects: parts, pins, nets.
pub fn write_nets(list: &Vec<PinNet>) -> (out: String)
    ensures
        out@ == nets_json(pin_net_list(list@)),
{
    let refs = list_pin_refs(list);
    let ghost all = pin_net_list(list@);
    let mut out: Vec<String> = Vec::new();
    let mut i: usize = 0;
    while i < refs.len()
        invariant
            i <= refs@.len(),
            all == pin_net_list(list@),
            out@.len() == i,
            forall|j: int| 0 <= j < i ==> (#[trigger] out@[j])@ == part_member(all, refs@[j]@),
        decreases refs@.len() - i,
    {
        let key = write_literal(refs[i].as_str());
        let inside = join(&list_pin_members(list, refs[i].as_str()), ",");
        let value = write_object_text(inside.as_str());
        out.push(write_pair_text(key.as_str(), value.as_str()));
        i += 1;
    }
    proof {
        assert(strings(out@) =~= part_members(all, pin_refs(all)));
    }
    let inside = join(&out, ",");
    write_object_text(inside.as_str())
}

/// The script that puts the pads of a board on their nets.
pub fn assign_nets_script(pcb: &str, list: &Vec<PinNet>) -> (out: String)
    ensures
        out@ == net_script(debug_text(pcb@), json_literal(nets_json(pin_net_list(list@)))),
{
    let nets = write_nets(list);
    let literal = write_literal(nets.as_str());
    let path = quoted_text(pcb);
    write_net_script(path.as_str(), literal.as_str())
}

/// How many pads an answer says were put on a net.
pub open spec fn pads_assigned(items: Option<Seq<Seq<char>>>) -> nat {
    match items {
        Some(l) => l.len(),
        None => 0,
    }
}

/// How many pads an answer says were put on a net.
pub fn read_pads_assigned(answer: &str) -> (n: usize)
    ensures
        n == pads_assigned(items_of(said_of(answer@, "changed"@))),
{
    match as_items(read_said(answer, "changed")) {
        Some(l) => {
            proof {
                assert(strings(l@).len() == l@.len());
            }
            l.len()
        },
        None => 0,
    }
}

/// The script that puts another footprint in the place of a part.
pub fn replace_footprint_script(
    pcb: &str,
    reference: &str,
    keep_position: bool,
    library: &str,
    footprint: &str,
) -> (out: String)
    ensures
        out@ == replace_script(
            debug_text(pcb@),
            debug_text(reference@),
            if keep_position {
                "True"@
            } else {
                "False"@
            },
            debug_text(library@),
            debug_text(footprint@),
        ),
{
    let path = quoted_text(pcb);
    let part = quoted_text(reference);
    let lib = quoted_text(library);
    let name = quoted_text(footprint);
    let keep: &str = if keep_position {
        "True"
    } else {
        "False"
    };
    write_replace_script(path.as_str(), part.as_str(), keep, lib.as_str(), name.as_str())
}

/// A pad of the new footprint.
#[derive(Debug)]
pub struct PadRow {
    pub number: String,
    pub x: i64,
    pub y: i64,
    pub layer: String,
    pub net: String,
}

/// A pad of the new footprint, in texts and numbers.
#[verifier::ext_equal]
pub struct RowModel {
    pub number: Seq<char>,
    pub x: int,
    pub y: int,
    pub layer: Seq<char>,
    pub net: Seq<char>,
}

pub open spec fn row_model(r: PadRow) -> RowModel {
    RowModel { number: r.number@, x: r.x as int, y: r.y as int, layer: r.layer@, net: r.net@ }
}

pub open spec fn row_models(list: Seq<PadRow>) -> Seq<RowModel> {
    list.map_values(|r: PadRow| row_model(r))
}

/// What came of putting another footprint in the place of a part. Pads of the old one
/// that found no counterpart come with their nets.
#[derive(Debug)]
pub struct Replacement {
    pub error: Option<String>,
    pub pads: Option<Vec<PadRow>>,
    pub old_count: u64,
    pub carried: u64,
    pub left_over: Vec<(String, String)>,
}

/// The length that a value gives, zero if it is no number.
pub open spec fn length_or_zero(v: Option<JsonModel>) -> int {
    match v {
        Some(JsonModel::Number(n)) => length_of(n),
        _ => 0,
    }
}

fn as_length(v: &Option<JsonValue>) -> (n: i64)
    ensures
        n == length_or_zero(json_found(*v)),
{
    match v {
        Some(JsonValue::Number(t)) => {
            let chars = to_chars(t.as_str());
            match parse_nanometres(chars.as_slice()) {
                Some(n) => n,
                None => 0,
            }
        },
        _ => 0,
    }
}

/// What an answer says of a pad.
pub open spec fn row_of(item: Seq<char>) -> RowModel {
    RowModel {
        number: text_or(said_of(item, "number"@), "?"@),
        x: length_or_zero(said_of(item, "x"@)),
        y: length_or_zero(said_of(item, "y"@)),
        layer: text_or(said_of(item, "layer"@), "?"@),
        net: text_or(said_of(item, "net"@), ""@),
    }
}

pub open spec fn rows_of(items: Seq<Seq<char>>) -> Seq<RowModel> {
    items.map_values(|i: Seq<char>| row_of(i))
}

/// What an answer says of a pad that found no counterpart.
pub open spec fn left_over_of(item: Seq<char>) -> (Seq<char>, Seq<char>) {
    (text_or(said_of(item, "number"@), "?"@), text_or(said_of(item, "net"@), "?"@))
}

pub open spec fn left_overs_of(items: Seq<Seq<char>>) -> Seq<(Seq<char>, Seq<char>)> {
    items.map_values(|i: Seq<char>| left_over_of(i))
}

pub open spec fn two_views(list: Seq<(String, String)>) -> Seq<(Seq<char>, Seq<char>)> {
    list.map_values(|e: (String, String)| (e.0@, e.1@))
}

fn read_rows(items: &Vec<String>) -> (out: Vec<PadRow>)
    ensures
        row_models(out@) == rows_of(strings(items@)),
{
    let mut out: Vec<PadRow> = Vec::new();
    let mut i: usize = 0;
    while i < items.len()
        invariant
            i <= items@.len(),
            out@.len() == i,
            forall|j: int| 0 <= j < i ==> row_model(#[trigger] out@[j]) == row_of(items@[j]@),
        decreases items@.len() - i,
    {
        let item = items[i].as_str();
        let row = PadRow {
            number: as_text_or(read_said(item, "number"), "?"),
            x: as_length(&read_said(item, "x")),
            y: as_length(&read_said(item, "y")),
            layer: as_text_or(read_said(item, "layer"), "?"),
            net: as_text_or(read_said(item, "net"), ""),
        };
        out.push(row);
        i += 1;
    }
    proof {
        assert(row_models(out@) =~= rows_of(strings(items@)));
    }
    out
}

fn read_left_overs(items: &Vec<String>) -> (out: Vec<(String, String)>)
    ensures
        two_views(out@) == left_overs_of(strings(items@)),
{
    let mut out: Vec<(String, String)> = Vec::new();
    let mut i: usize = 0;
    while i < items.len()
        invariant
            i <= items@.len(),
            out@.len() == i,
            forall|j: int|
                0 <= j < i ==> ((#[trigger] out@[j]).0@, out@[j].1@) == left_over_of(items@[j]@),
        decreases items@.len() - i,
    {
        let item = items[i].as_str();
        out.push(
            (
                as_text_or(read_said(item, "number"), "?"),
                as_text_or(read_said(item, "net"), "?"),
            ),
        );
        i += 1;
    }
    proof {
        assert(two_views(out@) =~= left_overs_of(strings(items@)));
    }
    out
}

/// Reads what came of putting another footprint in the place of a part.
pub fn read_replacement(answer: &str) -> (r: Replacement)
    ensures
        opt_text(r.error) == member(json_document(answer@), "error"@),
        (match r.pads {
            Some(l) => Some(row_models(l@)),
            None => None,
        }) == (match items_of(said_of(answer@, "pads"@)) {
            Some(l) => Some(rows_of(l)),
            None => None,
        }),
        r.old_count == count_or_zero(said_of(answer@, "old_pad_count"@)),
        r.carried == count_or_zero(said_of(answer@, "carried_count"@)),
        two_views(r.left_over@) == (match items_of(said_of(answer@, "uncarried_old"@)) {
            Some(l) => left_overs_of(l),
            None => Seq::empty(),
        }),
{
    let whole = read_json(answer);
    let error = get_member(&whole, "error");
    let pads = match as_items(read_said(answer, "pads")) {
        Some(l) => Some(read_rows(&l)),
        None => None,
    };
    let left_over: Vec<(String, String)> = match as_items(read_said(answer, "uncarried_old")) {
        Some(l) => read_left_overs(&l),
        None => {
            let none: Vec<(String, String)> = Vec::new();
            proof {
                assert(two_views(none@) =~= Seq::empty());
            }
            none
        },
    };
    Replacement {
        error,
        pads,
        old_count: as_count(&read_said(answer, "old_pad_count")),
        carried: as_count(&read_said(answer, "carried_count")),
        left_over,
    }
}

/// A pad of the new footprint.
pub open spec fn row_text(number: Seq<char>, x: int, y: int, layer: Seq<char>, net: Seq<char>) -> Seq<char> {
    "\n  pad "@ + number + ": ("@ + fixed(x, 10_000) + ", "@ + fixed(y, 10_000) + ") "@ + layer
        + "  "@ + net
}

fn write_row_text(number: &str, x: i64, y: i64, layer: &str, net: &str) -> (out: String)
    ensures
        out@ == row_text(number@, x as int, y as int, layer@, net@),
{
    let mut out = to_chars("\n  pad ");
    extend_str(&mut out, number);
    extend_str(&mut out, ": (");
    extend_fixed(&mut out, x as i128, 10_000);
    extend_str(&mut out, ", ");
    extend_fixed(&mut out, y as i128, 10_000);
    extend_str(&mut out, ") ");
    extend_str(&mut out, layer);
    extend_str(&mut out, "  ");
    extend_str(&mut out, net);
    proof {
        assert(out@ =~= row_text(number@, x as int, y as int, layer@, net@));
    }
    to_text(out.as_slice())
}

/// What is said of the net of a pad.
pub open spec fn net_note(net: Seq<char>) -> Seq<char> {
    if net.len() == 0 {
        "[no net]"@
    } else {
        "net="@ + net
    }
}

fn write_net_note(net: &str) -> (out: String)
    ensures
        out@ == net_note(net@),
{
    let chars = to_chars(net);
    if chars.len() == 0 {
        "[no net]".to_string()
    } else {
        let mut out = to_chars("net=");
        extend(&mut out, chars.as_slice());
        to_text(out.as_slice())
    }
}

pub open spec fn row_lines(list: Seq<RowModel>) -> Seq<char>
    decreases list.len(),
{
    if list.len() == 0 {
        Seq::empty()
    } else {
        let r = list.last();
        row_lines(list.drop_last()) + row_text(r.number, r.x, r.y, r.layer, net_note(r.net))
    }
}

/// The pads of the new footprint in lines; nothing if none are known.
pub open spec fn rows_text(pads: Option<Seq<RowModel>>) -> Seq<char> {
    match pads {
        Some(l) => "Pad positions:"@ + row_lines(l),
        None => Seq::empty(),
    }
}

pub open spec fn rows_model(pads: Option<Vec<PadRow>>) -> Option<Seq<RowModel>> {
    match pads {
        Some(l) => Some(row_models(l@)),
        None => None,
    }
}

fn write_rows(pads: &Option<Vec<PadRow>>) -> (out: String)
    ensures
        out@ == rows_text(rows_model(*pads)),
{
    match pads {
        None => {
            let out = String::new();
            proof {
                assert(out@ =~= Seq::empty());
            }
            out
        },
        Some(list) => {
            let ghost all = row_models(list@);
            let mut out = to_chars("Pad positions:");
            let ghost head = out@;
            let mut i: usize = 0;
            proof {
                assert(all.take(0).len() == 0);
                assert(out@ =~= head + row_lines(all.take(0)));
            }
            while i < list.len()
                invariant
                    i <= list@.len(),
                    all == row_models(list@),
                    out@ == head + row_lines(all.take(i as int)),
                decreases list@.len() - i,
            {
                proof {
                    assert(all.take(i + 1).drop_last() =~= all.take(i as int));
                    assert(all.take(i + 1).last() == row_model(list@[i as int]));
                }
                let r = &list[i];
                let note = write_net_note(r.net.as_str());
                let line = write_row_text(
                    r.number.as_str(),
                    r.x,
                    r.y,
                    r.layer.as_str(),
                    note.as_str(),
                );
                extend_str(&mut out, line.as_str());
                proof {
                    assert(out@ =~= head + row_lines(all.take(i + 1)));
                }
                i += 1;
            }
            proof {
                assert(all.take(all.len() as int) =~= all);
            }
            to_text(out.as_slice())
        },
    }
}

/// A pad that found no counterpart.
pub open spec fn left_over_text(number: Seq<char>, net: Seq<char>) -> Seq<char> {
    "pad "@ + number + " (was "@ + net + ")"@
}

fn write_left_over_text(number: &str, net: &str) -> (out: String)
    ensures
        out@ == left_over_text(number@, net@),
{
    let mut out = to_chars("pad ");
    extend_str(&mut out, number);
    extend_str(&mut out, " (was ");
    extend_str(&mut out, net);
    extend_str(&mut out, ")");
    proof {
        assert(out@ =~= left_over_text(number@, net@));
    }
    to_text(out.as_slice())
}

/// Which pads found no counterpart.
pub open spec fn left_over_warning(list: Seq<char>) -> Seq<char> {
    "\n⚠️  No matching pad number on the new footprint for: "@ + list + " — reassign manually."@
}

fn write_left_over_warning(list: &str) -> (out: String)
    ensures
        out@ == left_over_warning(list@),
{
    let mut out = to_chars("\n⚠️  No matching pad number on the new footprint for: ");
    extend_str(&mut out, list);
    extend_str(&mut out, " — reassign manually.");
    proof {
        assert(out@ =~= left_over_warning(list@));
    }
    to_text(out.as_slice())
}

/// What is told where no pad had a net.
pub const NOTHING_TO_CARRY: &'static str =
    "No netted pads on the old footprint — nothing to carry over.";

pub open spec fn left_over_texts(list: Seq<(Seq<char>, Seq<char>)>) -> Seq<Seq<char>> {
    list.map_values(|e: (Seq<char>, Seq<char>)| left_over_text(e.0, e.1))
}

/// How many nets were carried over.
pub open spec fn carried_text(carried: nat, count: nat) -> Seq<char> {
    "Carried over nets for "@ + decimal(carried) + "/"@ + decimal(count)
        + " old netted pad(s)."@
}

/// What is told of the nets of the old pads.
pub open spec fn carry_text(
    count: nat,
    carried: nat,
    left_over: Seq<(Seq<char>, Seq<char>)>,
) -> Seq<char> {
    if count == 0 {
        NOTHING_TO_CARRY@
    } else if left_over.len() == 0 {
        carried_text(carried, count)
    } else {
        carried_text(carried, count) + left_over_warning(
            joined(left_over_texts(left_over), ", "@),
        )
    }
}

fn write_left_overs(list: &Vec<(String, String)>) -> (out: Vec<String>)
    ensures
        strings(out@) == left_over_texts(two_views(list@)),
{
    let mut out: Vec<String> = Vec::new();
    let mut i: usize = 0;
    while i < list.len()
        invariant
            i <= list@.len(),
            out@.len() == i,
            forall|j: int|
                0 <= j < i ==> (#[trigger] out@[j])@ == left_over_text(list@[j].0@, list@[j].1@),
        decreases list@.len() - i,
    {
        out.push(write_left_over_text(list[i].0.as_str(), list[i].1.as_str()));
        i += 1;
    }
    proof {
        assert(strings(out@) =~= left_over_texts(two_views(list@)));
    }
    out
}

fn write_carry(r: &Replacement) -> (out: String)
    ensures
        out@ == carry_text(r.old_count as nat, r.carried as nat, two_views(r.left_over@)),
{
    if r.old_count == 0 {
        return NOTHING_TO_CARRY.to_string();
    }
    let mut out = to_chars("Carried over nets for ");
    crate::units::extend_decimal(&mut out, r.carried as u128);
    extend_str(&mut out, "/");
    crate::units::extend_decimal(&mut out, r.old_count as u128);
    extend_str(&mut out, " old netted pad(s).");
    proof {
        assert(out@ =~= carried_text(r.carried as nat, r.old_count as nat));
        assert(two_views(r.left_over@).len() == r.left_over@.len());
    }
    if r.left_over.len() > 0 {
        let list = join(&write_left_overs(&r.left_over), ", ");
        let more = write_left_over_warning(list.as_str());
        extend_str(&mut out, more.as_str());
    }
    to_text(out.as_slice())
}

/// Which footprint was replaced, and where the part stands.
pub open spec fn replaced_head(reference: Seq<char>, before: Seq<char>, library: Seq<char>, footprint: Seq<char>, x: int, y: int, turn: int) -> Seq<char> {
    "Replaced "@ + reference + " footprint: "@ + before + " → "@ + library + ":"@ + footprint
        + "\nPosition kept: ("@ + plain(x) + ", "@ + plain(y) + ", rot="@ + plain(turn)
        + "°)\n"@
}

fn write_replaced_head(reference: &str, before: &str, library: &str, footprint: &str, x: i64, y: i64, turn: i64) -> (out: String)
    ensures
        out@ == replaced_head(reference@, before@, library@, footprint@, x as int, y as int, turn as int),
{
    let mut out = to_chars("Replaced ");
    extend_str(&mut out, reference);
    extend_str(&mut out, " footprint: ");
    extend_str(&mut out, before);
    extend_str(&mut out, " → ");
    extend_str(&mut out, library);
    extend_str(&mut out, ":");
    extend_str(&mut out, footprint);
    extend_str(&mut out, "\nPosition kept: (");
    extend_plain(&mut out, x);
    extend_str(&mut out, ", ");
    extend_plain(&mut out, y);
    extend_str(&mut out, ", rot=");
    extend_plain(&mut out, turn);
    extend_str(&mut out, "°)\n");
    proof {
        assert(out@ =~= replaced_head(reference@, before@, library@, footprint@, x as int, y as int, turn as int));
    }
    to_text(out.as_slice())
}

/// Why the footprint was not replaced.
pub open spec fn replace_error(why: Seq<char>) -> Seq<char> {
    "replace_footprint error: "@ + why
}

fn write_replace_error(why: &str) -> (out: String)
    ensures
        out@ == replace_error(why@),
{
    let mut out = to_chars("replace_footprint error: ");
    extend_str(&mut out, why);
    proof {
        assert(out@ =~= replace_error(why@));
    }
    to_text(out.as_slice())
}

/// Which footprint was put in the place of which, and where.
#[derive(Debug, Clone, Copy)]
pub struct Swap<'a> {
    pub reference: &'a str,
    pub before: &'a str,
    pub library: &'a str,
    pub footprint: &'a str,
    pub at: (i64, i64, i64),
}

/// What is told of a footprint that was put in the place of another.
pub open spec fn swap_text(s: Swap, r: Replacement) -> Result<Seq<char>, Seq<char>> {
    match r.error {
        Some(why) => Err(replace_error(why@)),
        None => Ok(
            replaced_head(
                s.reference@,
                s.before@,
                s.library@,
                s.footprint@,
                s.at.0 as int,
                s.at.1 as int,
                s.at.2 as int,
            ) + rows_text(rows_model(r.pads)) + "\n\n"@ + carry_text(
                r.old_count as nat,
                r.carried as nat,
                two_views(r.left_over@),
            ),
        ),
    }
}

/// Tells what came of putting another footprint in the place of a part.
pub fn describe_replacement(s: Swap, r: &Replacement) -> (out: Result<String, String>)
    ensures
        crate::edits::answer_model(out) == swap_text(s, *r),
{
    match &r.error {
        Some(why) => Err(write_replace_error(why.as_str())),
        None => {
            let head = write_replaced_head(
                s.reference,
                s.before,
                s.library,
                s.footprint,
                s.at.0,
                s.at.1,
                s.at.2,
            );
            let mut out = to_chars(head.as_str());
            let rows = write_rows(&r.pads);
            extend_str(&mut out, rows.as_str());
            extend_str(&mut out, "\n\n");
            let carry = write_carry(r);
            extend_str(&mut out, carry.as_str());
            Ok(to_text(out.as_slice()))
        },
    }
}

/// The script that hands a board to the router.
pub fn route_export_script(path: &str, dsn: &str) -> (out: String)
    ensures
        out@ == export_script(debug_text(path@), debug_text(dsn@)),
{
    let board = quoted_text(path);
    let file = quoted_text(dsn);
    write_export_script(board.as_str(), file.as_str())
}

/// The script that takes the routes into the board.
pub fn route_import_script(path: &str, ses: &str, out_path: &str) -> (out: String)
    ensures
        out@ == import_script(debug_text(path@), debug_text(ses@), debug_text(out_path@)),
{
    let board = quoted_text(path);
    let file = quoted_text(ses);
    let target = quoted_text(out_path);
    write_import_script(board.as_str(), file.as_str(), target.as_str())
}

/// Whether a line of the router tells how far it got.
pub open spec fn is_progress(line: Seq<char>) -> bool {
    contains(line, "completed"@) || contains(line, "unrouted"@) || contains(line, "score"@)
}

/// The last line that tells how far the router got.
pub open spec fn last_progress(lines: Seq<Seq<char>>) -> Seq<char>
    decreases lines.len(),
{
    if lines.len() == 0 {
        Seq::empty()
    } else if is_progress(lines.last()) {
        lines.last()
    } else {
        last_progress(lines.drop_last())
    }
}

/// The last line of a log that tells how far the router got.
pub fn read_progress(log: &str) -> (out: String)
    ensures
        out@ == last_progress(lines_of(log@)),
{
    let text = to_chars(log);
    let list = lines(text.as_slice());
    let ghost all = texts(list@);
    let mut i: usize = list.len();
    proof {
        assert(all.take(all.len() as int) =~= all);
    }
    while i > 0
        invariant
            i <= list@.len(),
            all == texts(list@),
            all == lines_of(log@),
            last_progress(all) == last_progress(all.take(i as int)),
        decreases i,
    {
        proof {
            assert(all.take(i as int).drop_last() =~= all.take(i - 1));
            assert(all.take(i as int).last() == list@[i - 1]@);
        }
        let line = list[i - 1].as_slice();
        if has_str(line, "completed") || has_str(line, "unrouted") || has_str(line, "score") {
            return to_text(line);
        }
        i -= 1;
    }
    let out = String::new();
    proof {
        assert(all.take(0).len() == 0);
        assert(out@ =~= Seq::empty());
    }
    out
}

/// The net that a description names in square brackets.
pub open spec fn net_in_brackets(text: Seq<char>) -> Option<Seq<char>> {
    match (find(text, "["@, 0), find(text, "]"@, 0)) {
        (Some(a), Some(b)) => if a < b {
            Some(text.subrange(a + 1, b))
        } else {
            None
        },
        _ => None,
    }
}

/// Reads the net that a description names in square brackets.
pub fn read_net_in_brackets(description: &str) -> (net: Option<String>)
    ensures
        opt_text(net) == net_in_brackets(description@),
{
    let text = to_chars(description);
    let open = to_chars("[");
    let close = to_chars("]");
    proof {
        reveal_strlit("[");
        reveal_strlit("]");
        lemma_find_is_first(text@, open@, 0);
        lemma_find_is_first(text@, close@, 0);
    }
    match (
        find_from(text.as_slice(), open.as_slice(), 0),
        find_from(text.as_slice(), close.as_slice(), 0),
    ) {
        (Some(a), Some(b)) => {
            if a < b {
                Some(to_text(slice_subrange(text.as_slice(), a + 1, b)))
            } else {
                None
            }
        },
        _ => None,
    }
}

/// The nets with the one that an item names, if it is new.
pub open spec fn with_net(nets: Seq<Seq<char>>, item: Seq<char>) -> Seq<Seq<char>> {
    match net_in_brackets(text_or(said_of(item, "description"@), ""@)) {
        Some(n) => if nets.contains(n) {
            nets
        } else {
            nets.push(n)
        },
        None => nets,
    }
}

pub open spec fn with_nets(nets: Seq<Seq<char>>, items: Seq<Seq<char>>) -> Seq<Seq<char>>
    decreases items.len(),
{
    if items.len() == 0 {
        nets
    } else {
        with_net(with_nets(nets, items.drop_last()), items.last())
    }
}

pub open spec fn or_none(items: Option<Seq<Seq<char>>>) -> Seq<Seq<char>> {
    match items {
        Some(l) => l,
        None => Seq::empty(),
    }
}

/// The nets that the given faults name, each once.
pub open spec fn nets_of_faults(faults: Seq<Seq<char>>) -> Seq<Seq<char>>
    decreases faults.len(),
{
    if faults.len() == 0 {
        Seq::empty()
    } else {
        with_nets(
            nets_of_faults(faults.drop_last()),
            or_none(items_of(said_of(faults.last(), "items"@))),
        )
    }
}

/// The nets that a report of faults says are not connected.
pub open spec fn unrouted(report: Seq<char>) -> Seq<Seq<char>> {
    nets_of_faults(or_none(items_of(said_of(report, "unconnected_items"@))))
}

fn add_nets(nets: &mut Vec<String>, items: &Vec<String>)
    ensures
        strings(final(nets)@) == with_nets(strings(old(nets)@), strings(items@)),
{
    let ghost start = strings(nets@);
    let ghost all = strings(items@);
    let mut i: usize = 0;
    proof {
        assert(all.take(0).len() == 0);
    }
    while i < items.len()
        invariant
            i <= items@.len(),
            all == strings(items@),
            strings(nets@) == with_nets(start, all.take(i as int)),
        decreases items@.len() - i,
    {
        proof {
            assert(all.take(i + 1).drop_last() =~= all.take(i as int));
            assert(all.take(i + 1).last() == items@[i as int]@);
        }
        let what = as_text_or(read_said(items[i].as_str(), "description"), "");
        match read_net_in_brackets(what.as_str()) {
            Some(n) => {
                if !has_text(nets, &n) {
                    let ghost done = nets@;
                    nets.push(n);
                    proof {
                        assert(strings(nets@) =~= strings(done).push(n@));
                    }
                }
            },
            None => {},
        }
        i += 1;
    }
    proof {
        assert(all.take(all.len() as int) =~= all);
    }
}

fn items_or_none(v: Option<JsonValue>) -> (out: Vec<String>)
    ensures
        strings(out@) == or_none(items_of(json_found(v))),
{
    match as_items(v) {
        Some(l) => l,
        None => {
            let out: Vec<String> = Vec::new();
            proof {
                assert(strings(out@) =~= Seq::empty());
            }
            out
        },
    }
}

/// Reads the nets that a report of faults says are not connected, each once.
pub fn read_unrouted(report: &str) -> (out: Vec<String>)
    ensures
        strings(out@) == unrouted(report@),
{
    let faults = items_or_none(read_said(report, "unconnected_items"));
    let ghost all = strings(faults@);
    let mut out: Vec<String> = Vec::new();
    let mut i: usize = 0;
    proof {
        assert(all.take(0).len() == 0);
        assert(strings(out@) =~= Seq::empty());
    }
    while i < faults.len()
        invariant
            i <= faults@.len(),
            all == strings(faults@),
            strings(out@) == nets_of_faults(all.take(i as int)),
        decreases faults@.len() - i,
    {
        proof {
            assert(all.take(i + 1).drop_last() =~= all.take(i as int));
            assert(all.take(i + 1).last() == faults@[i as int]@);
        }
        let items = items_or_none(read_said(faults[i].as_str(), "items"));
        add_nets(&mut out, &items);
        i += 1;
    }
    proof {
        assert(all.take(all.len() as int) =~= all);
    }
    out
}

/// What is told where every net is routed.
pub const ALL_ROUTED: &'static str = "All nets routed successfully.";

/// Which nets are not routed.
pub open spec fn unrouted_list(n: nat, list: Seq<char>) -> Seq<char> {
    "Unrouted nets ("@ + decimal(n) + "):\n  "@ + list
}

fn write_unrouted_list(n: usize, list: &str) -> (out: String)
    ensures
        out@ == unrouted_list(n as nat, list@),
{
    let mut out = to_chars("Unrouted nets (");
    let digits = number(n);
    extend(&mut out, digits.as_slice());
    extend_str(&mut out, "):\n  ");
    extend_str(&mut out, list);
    proof {
        assert(out@ =~= unrouted_list(n as nat, list@));
    }
    to_text(out.as_slice())
}

/// What is told of the nets that are not routed, in their order.
pub open spec fn unrouted_text(nets: Seq<Seq<char>>) -> Seq<char> {
    if nets.len() == 0 {
        ALL_ROUTED@
    } else {
        unrouted_list(nets.len(), joined(sorted(nets), ", "@))
    }
}

/// Tells which nets are not routed, in their order.
pub fn describe_unrouted(nets: &Vec<String>) -> (out: String)
    ensures
        out@ == unrouted_text(strings(nets@)),
{
    proof {
        assert(strings(nets@).len() == nets@.len());
    }
    if nets.len() == 0 {
        ALL_ROUTED.to_string()
    } else {
        let list = join(&sort(nets), ", ");
        write_unrouted_list(nets.len(), list.as_str())
    }
}

/// What came of routing a board.
pub open spec fn route_summary(info: Seq<char>, progress: Seq<char>, path: Seq<char>, nets: Seq<char>) -> Seq<char> {
    "Autoroute complete: "@ + info + "\nRouting result: "@ + progress + "\nSaved to: "@ + path
        + "\n"@ + nets
}

fn write_route_summary(info: &str, progress: &str, path: &str, nets: &str) -> (out: String)
    ensures
        out@ == route_summary(info@, progress@, path@, nets@),
{
    let mut out = to_chars("Autoroute complete: ");
    extend_str(&mut out, info);
    extend_str(&mut out, "\nRouting result: ");
    extend_str(&mut out, progress);
    extend_str(&mut out, "\nSaved to: ");
    extend_str(&mut out, path);
    extend_str(&mut out, "\n");
    extend_str(&mut out, nets);
    proof {
        assert(out@ =~= route_summary(info@, progress@, path@, nets@));
    }
    to_text(out.as_slice())
}

/// What came of routing a board: what the import said, how far the router got, where the
/// board was saved, and which nets are not routed if there is a report of faults.
pub fn describe_routing(info: &str, log: &str, path: &str, report: Option<&str>) -> (out: String)
    ensures
        out@ == route_summary(
            trim(info@),
            last_progress(lines_of(log@)),
            path@,
            match report {
                Some(r) => unrouted_text(unrouted(r@)),
                None => Seq::empty(),
            },
        ),
{
    let chars = to_chars(info);
    let said = to_text(trimmed(chars.as_slice()));
    let progress = read_progress(log);
    let nets: String = match report {
        Some(r) => describe_unrouted(&read_unrouted(r)),
        None => {
            let none = String::new();
            proof {
                assert(none@ =~= Seq::empty());
            }
            none
        },
    };
    write_route_summary(said.as_str(), progress.as_str(), path, nets.as_str())
}

} // verus!
