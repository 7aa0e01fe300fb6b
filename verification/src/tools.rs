//! What other programs are asked for, and what is told of files and libraries.

use crate::choices::{lowercase, lowered, output_format_named, unknown, OutputFormat};
use crate::config::{CliOverrides};
use crate::lookup::{read_kicad_section, section};
use crate::pcb::{BoundingBox, Side};
use crate::strings::{
    decimal, join, joined, lines, lines_of, number, sort, sorted, starts_with, strings, texts,
};
use crate::text::{contains, extend, extend_str, has_at, has_str, same_str, to_chars, to_text};
use crate::units::{
    extend_decimal, extend_fixed, extend_sign, fixed, magnitude, sign, size_of,
};
use vstd::prelude::*;

verus! {

/// A file with the number of its lines.
pub open spec fn whole_file(n: nat, content: Seq<char>) -> Seq<char> {
    "("@ + decimal(n) + " lines total)\n"@ + content
}

fn write_whole_file(n: usize, content: &str) -> (out: String)
    ensures
        out@ == whole_file(n as nat, content@),
{
    let mut out = to_chars("(");
    let digits = number(n);
    extend(&mut out, digits.as_slice());
    extend_str(&mut out, " lines total)\n");
    extend_str(&mut out, content);
    proof {
        assert(out@ =~= whole_file(n as nat, content@));
    }
    to_text(out.as_slice())
}

/// A file: the whole if no part is asked for, else a part by lines.
pub open spec fn file_text(content: Seq<char>, offset: Option<usize>, limit: Option<usize>) -> Seq<char> {
    if offset is None && limit is None {
        whole_file(lines_of(content).len(), content)
    } else {
        section(
            content,
            match offset {
                Some(o) => o as nat,
                None => 1,
            },
            match limit {
                Some(l) => l as nat,
                None => 300,
            },
        )
    }
}

/// Shows a file, or a part of it by lines.
pub fn read_kicad_file(content: &str, offset: Option<usize>, limit: Option<usize>) -> (out: String)
    ensures
        out@ == file_text(content@, offset, limit),
{
    if offset.is_none() && limit.is_none() {
        let text = to_chars(content);
        let list = lines(text.as_slice());
        proof {
            assert(texts(list@).len() == list@.len());
        }
        return write_whole_file(list.len(), content);
    }
    let from: usize = match offset {
        Some(o) => o,
        None => 1,
    };
    let most: usize = match limit {
        Some(l) => l,
        None => 300,
    };
    read_kicad_section(content, from, most)
}

/// A file that was written.
pub open spec fn file_written(path: Seq<char>) -> Seq<char> {
    "Written to "@ + path
        + ".\nNext steps: call render_pcb to preview, run_drc to check for violations."@
}

pub fn write_file_written(path: &str) -> (out: String)
    ensures
        out@ == file_written(path@),
{
    let mut out = to_chars("Written to ");
    extend_str(&mut out, path);
    extend_str(&mut out, ".\nNext steps: call render_pcb to preview, run_drc to check for violations.");
    proof {
        assert(out@ =~= file_written(path@));
    }
    to_text(out.as_slice())
}

/// A program that gave no result.
pub open spec fn call_failed(what: Seq<char>, code: int, said: Seq<char>) -> Seq<char> {
    what + " failed (exit "@ + sign(code) + decimal(magnitude(code) as nat) + "):\n"@ + said
}

pub fn write_call_failed(what: &str, code: i64, said: &str) -> (out: String)
    ensures
        out@ == call_failed(what@, code as int, said@),
{
    let mut out = to_chars(what);
    extend_str(&mut out, " failed (exit ");
    extend_sign(&mut out, code as i128);
    extend_decimal(&mut out, size_of(code as i128));
    extend_str(&mut out, "):\n");
    extend_str(&mut out, said);
    proof {
        assert(out@ =~= call_failed(what@, code as int, said@));
    }
    to_text(out.as_slice())
}

/// A quotient of positive numbers in whole numbers, a half rounded up.
pub open spec fn rounded(n: int, d: int) -> int {
    (n + d / 2) / d
}

pub open spec fn at_least(n: int, least: int) -> int {
    if n < least {
        least
    } else {
        n
    }
}

pub open spec fn at_most(n: int, most: int) -> int {
    if n > most {
        most
    } else {
        n
    }
}

/// How far to zoom in on a board of a size, in thousandths: so that it fills nine tenths
/// of a picture of 80 mm by 53.3 mm, between 0.3 and 10.
pub open spec fn zoom_for(width: int, height: int) -> int {
    let w = at_least(magnitude(width), 1_000_000);
    let h = at_least(magnitude(height), 1_000_000);
    let across = rounded(72_000_000_000, w);
    let down = rounded(48_000_000_000, h);
    at_most(at_least(at_most(across, down), 300), 10_000)
}

/// How far to zoom in on a board, as it is written.
pub fn render_zoom(board: Option<BoundingBox>) -> (out: String)
    ensures
        out@ == match board {
            Some(b) => fixed(zoom_for(b.max_x - b.min_x, b.max_y - b.min_y) * 1000, 1000),
            None => "1.5"@,
        },
{
    match board {
        None => "1.5".to_string(),
        Some(b) => {
            let mut w: i128 = b.max_x as i128 - b.min_x as i128;
            let mut h: i128 = b.max_y as i128 - b.min_y as i128;
            if w < 0 {
                w = -w;
            }
            if h < 0 {
                h = -h;
            }
            if w < 1_000_000 {
                w = 1_000_000;
            }
            if h < 1_000_000 {
                h = 1_000_000;
            }
            proof {
                lemma_quotient_bound(72_000_000_000 + w as int / 2, w as int);
                lemma_quotient_bound(48_000_000_000 + h as int / 2, h as int);
            }
            let across: i128 = (72_000_000_000 + w / 2) / w;
            let down: i128 = (48_000_000_000 + h / 2) / h;
            let mut zoom: i128 = if across > down {
                down
            } else {
                across
            };
            if zoom < 300 {
                zoom = 300;
            }
            if zoom > 10_000 {
                zoom = 10_000;
            }
            let mut out: Vec<char> = Vec::new();
            extend_fixed(&mut out, zoom * 1000, 1000);
            proof {
                assert(out@ =~= fixed(
                    zoom_for(b.max_x - b.min_x, b.max_y - b.min_y) * 1000,
                    1000,
                ));
            }
            to_text(out.as_slice())
        },
    }
}

proof fn lemma_quotient_bound(n: int, d: int)
    requires
        n >= 0,
        d > 0,
    ensures
        0 <= n / d <= n,
{
    assert(0 <= n / d <= n) by (nonlinear_arith)
        requires
            n >= 0,
            d > 0,
    ;
}

/// However large a board is, the zoom stays between 0.3 and 10.
pub proof fn lemma_zoom_in_range(width: int, height: int)
    ensures
        300 <= zoom_for(width, height) <= 10_000,
{
}

/// What the renderer is asked for.
pub open spec fn render_request(
    out: Seq<char>,
    width: Seq<char>,
    height: Seq<char>,
    side: Seq<char>,
    quality: Seq<char>,
    zoom: Seq<char>,
    path: Seq<char>,
) -> Seq<Seq<char>> {
    seq![
        "pcb"@,
        "render"@,
        "--output"@,
        out,
        "--width"@,
        width,
        "--height"@,
        height,
        "--side"@,
        side,
        "--quality"@,
        quality,
        "--background"@,
        "opaque"@,
        "--zoom"@,
        zoom,
        path,
    ]
}

fn add_two(list: &mut Vec<String>, a: &str, b: &str)
    ensures
        strings(final(list)@) == strings(old(list)@) + seq![a@, b@],
{
    list.push(a.to_string());
    list.push(b.to_string());
    proof {
        assert(strings(list@) =~= strings(old(list)@) + seq![a@, b@]);
    }
}

/// What the renderer is asked for.
pub fn render_args(
    out: &str,
    width: u32,
    height: u32,
    side: &str,
    quality: &str,
    zoom: &str,
    path: &str,
) -> (args: Vec<String>)
    ensures
        strings(args@) == render_request(
            out@,
            decimal(width as nat),
            decimal(height as nat),
            side@,
            quality@,
            zoom@,
            path@,
        ),
{
    let mut w: Vec<char> = Vec::new();
    extend_decimal(&mut w, width as u128);
    let mut h: Vec<char> = Vec::new();
    extend_decimal(&mut h, height as u128);
    proof {
        assert(w@ =~= decimal(width as nat));
        assert(h@ =~= decimal(height as nat));
    }
    let mut args: Vec<String> = Vec::new();
    proof {
        assert(strings(args@) =~= Seq::empty());
    }
    add_two(&mut args, "pcb", "render");
    add_two(&mut args, "--output", out);
    add_two(&mut args, "--width", to_text(w.as_slice()).as_str());
    add_two(&mut args, "--height", to_text(h.as_slice()).as_str());
    add_two(&mut args, "--side", side);
    add_two(&mut args, "--quality", quality);
    add_two(&mut args, "--background", "opaque");
    add_two(&mut args, "--zoom", zoom);
    let ghost done = args@;
    args.push(path.to_string());
    proof {
        assert(strings(args@) =~= strings(done).push(path@));
        assert(strings(args@) =~= render_request(
            out@,
            decimal(width as nat),
            decimal(height as nat),
            side@,
            quality@,
            zoom@,
            path@,
        ));
    }
    args
}

/// The sides to be rendered: the one asked for, else top and bottom.
pub fn render_sides(side: Option<&str>) -> (out: Vec<String>)
    ensures
        strings(out@) == match side {
            Some(s) => seq![s@],
            None => seq!["top"@, "bottom"@],
        },
{
    let mut out: Vec<String> = Vec::new();
    match side {
        Some(s) => {
            out.push(s.to_string());
            proof {
                assert(strings(out@) =~= seq![s@]);
            }
        },
        None => {
            out.push("top".to_string());
            out.push("bottom".to_string());
            proof {
                assert(strings(out@) =~= seq!["top"@, "bottom"@]);
            }
        },
    }
    out
}

/// What is asked for to draw a schematic.
pub open spec fn drawing_request(out: Seq<char>, theme: Option<&str>, plain: bool, path: Seq<char>) -> Seq<
    Seq<char>,
> {
    let head = seq!["sch"@, "export"@, "svg"@, "--output"@, out];
    let themed = match theme {
        Some(t) => head + seq!["--theme"@, t@],
        None => head,
    };
    let toned = if plain {
        themed + seq!["--black-and-white"@]
    } else {
        themed
    };
    toned + seq![path]
}

/// What is asked for to draw a schematic.
pub fn schematic_args(out: &str, theme: Option<&str>, black_and_white: bool, path: &str) -> (args: Vec<
    String,
>)
    ensures
        strings(args@) == drawing_request(out@, theme, black_and_white, path@),
{
    let mut args: Vec<String> = Vec::new();
    args.push("sch".to_string());
    args.push("export".to_string());
    args.push("svg".to_string());
    args.push("--output".to_string());
    args.push(out.to_string());
    match theme {
        Some(t) => {
            args.push("--theme".to_string());
            args.push(t.to_string());
        },
        None => {},
    }
    if black_and_white {
        args.push("--black-and-white".to_string());
    }
    args.push(path.to_string());
    proof {
        assert(strings(args@) =~= drawing_request(out@, theme, black_and_white, path@));
    }
    args
}

/// Where a user has the footprints of a version.
pub open spec fn own_footprints(home: Seq<char>, version: Seq<char>) -> Seq<char> {
    home + "/.local/share/kicad/"@ + version + "/footprints"@
}

fn write_own_footprints(home: &str, version: &str) -> (out: String)
    ensures
        out@ == own_footprints(home@, version@),
{
    let mut out = to_chars(home);
    extend_str(&mut out, "/.local/share/kicad/");
    extend_str(&mut out, version);
    extend_str(&mut out, "/footprints");
    proof {
        assert(out@ =~= own_footprints(home@, version@));
    }
    to_text(out.as_slice())
}

/// Where footprint libraries may be, those of the user first.
pub open spec fn footprint_dirs(home: Option<&str>) -> Seq<Seq<char>> {
    let shared = seq!["/usr/share/kicad/footprints"@, "/usr/local/share/kicad/footprints"@];
    match home {
        Some(h) => seq![own_footprints(h@, "9.0"@), own_footprints(h@, "8.0"@)] + shared,
        None => shared,
    }
}

/// Where to look for footprint libraries, in this order.
pub fn footprint_library_dirs(home: Option<&str>) -> (out: Vec<String>)
    ensures
        strings(out@) == footprint_dirs(home),
{
    let mut out: Vec<String> = Vec::new();
    match home {
        Some(h) => {
            out.push(write_own_footprints(h, "9.0"));
            out.push(write_own_footprints(h, "8.0"));
        },
        None => {},
    }
    out.push("/usr/share/kicad/footprints".to_string());
    out.push("/usr/local/share/kicad/footprints".to_string());
    proof {
        assert(strings(out@) =~= footprint_dirs(home));
    }
    out
}

/// A line set in.
pub open spec fn indented(text: Seq<char>) -> Seq<char> {
    "  "@ + text
}

fn write_indented(text: &str) -> (out: String)
    ensures
        out@ == indented(text@),
{
    let mut out = to_chars("  ");
    extend_str(&mut out, text);
    proof {
        assert(out@ =~= indented(text@));
    }
    to_text(out.as_slice())
}

/// The place of a project.
pub open spec fn local_dir(path: Seq<char>) -> Seq<char> {
    "  "@ + path + " (project-local)"@
}

fn write_local_dir(path: &str) -> (out: String)
    ensures
        out@ == local_dir(path@),
{
    let mut out = to_chars("  ");
    extend_str(&mut out, path);
    extend_str(&mut out, " (project-local)");
    proof {
        assert(out@ =~= local_dir(path@));
    }
    to_text(out.as_slice())
}

pub open spec fn all_indented(list: Seq<Seq<char>>) -> Seq<Seq<char>> {
    list.map_values(|t: Seq<char>| indented(t))
}

fn indent_all(list: &Vec<String>) -> (out: Vec<String>)
    ensures
        strings(out@) == all_indented(strings(list@)),
{
    let mut out: Vec<String> = Vec::new();
    let mut i: usize = 0;
    while i < list.len()
        invariant
            i <= list@.len(),
            out@.len() == i,
            forall|j: int| 0 <= j < i ==> (#[trigger] out@[j])@ == indented(list@[j]@),
        decreases list@.len() - i,
    {
        out.push(write_indented(list[i].as_str()));
        i += 1;
    }
    proof {
        assert(strings(out@) =~= all_indented(strings(list@)));
    }
    out
}

/// No library was found in these places.
pub open spec fn no_libraries(list: Seq<char>) -> Seq<char> {
    "No footprint libraries found. Searched:\n"@ + list
        + "\n\nInstall system libraries: sudo pacman -S kicad-library\nOr pass project_path to discover project-local .pretty directories."@
}

fn write_no_libraries(list: &str) -> (out: String)
    ensures
        out@ == no_libraries(list@),
{
    let mut out = to_chars("No footprint libraries found. Searched:\n");
    extend_str(&mut out, list);
    extend_str(&mut out, "\n\nInstall system libraries: sudo pacman -S kicad-library\nOr pass project_path to discover project-local .pretty directories.");
    proof {
        assert(out@ =~= no_libraries(list@));
    }
    to_text(out.as_slice())
}

/// The places that were searched, set in.
pub open spec fn searched_dirs(home: Option<&str>, project: Option<&str>) -> Seq<Seq<char>> {
    let shown = all_indented(footprint_dirs(home));
    match project {
        Some(p) => shown.push(local_dir(p@)),
        None => shown,
    }
}

/// Tells that no library was found, and where it was searched.
pub fn describe_no_libraries(home: Option<&str>, project: Option<&str>) -> (out: String)
    ensures
        out@ == no_libraries(joined(searched_dirs(home, project), "\n"@)),
{
    let mut list = indent_all(&footprint_library_dirs(home));
    match project {
        Some(p) => {
            let ghost done = list@;
            let line = write_local_dir(p);
            list.push(line);
            proof {
                assert(strings(list@) =~= strings(done).push(line@));
            }
        },
        None => {},
    }
    let all = join(&list, "\n");
    write_no_libraries(all.as_str())
}

/// Whether a footprint has a text in its name or that of its library, however it is
/// spelt.
pub open spec fn is_hit(library: Seq<char>, name: Seq<char>, query: Seq<char>) -> bool {
    contains(lowercase(hit_name(library, name)), lowercase(query))
}

/// A footprint with its library.
pub open spec fn hit_name(library: Seq<char>, name: Seq<char>) -> Seq<char> {
    library + ":"@ + name
}

fn write_hit_name(library: &str, name: &str) -> (out: String)
    ensures
        out@ == hit_name(library@, name@),
{
    let mut out = to_chars(library);
    extend_str(&mut out, ":");
    extend_str(&mut out, name);
    proof {
        assert(out@ =~= hit_name(library@, name@));
    }
    to_text(out.as_slice())
}

pub open spec fn name_pairs(list: Seq<(String, String)>) -> Seq<(Seq<char>, Seq<char>)> {
    list.map_values(|e: (String, String)| (e.0@, e.1@))
}

/// Those of the footprints that have a text, up to a number.
pub open spec fn hits(list: Seq<(Seq<char>, Seq<char>)>, query: Seq<char>, most: nat) -> Seq<Seq<char>>
    decreases list.len(),
{
    if list.len() == 0 {
        Seq::empty()
    } else {
        let front = hits(list.drop_last(), query, most);
        let e = list.last();
        if front.len() < most && is_hit(e.0, e.1, query) {
            front.push(hit_name(e.0, e.1))
        } else {
            front
        }
    }
}

fn find_hits(list: &Vec<(String, String)>, query: &str, most: usize) -> (out: Vec<String>)
    ensures
        strings(out@) == hits(name_pairs(list@), query@, most as nat),
{
    let ghost all = name_pairs(list@);
    let wanted = lowered(query);
    let mut out: Vec<String> = Vec::new();
    let mut i: usize = 0;
    proof {
        assert(all.take(0).len() == 0);
        assert(strings(out@) =~= Seq::empty());
    }
    while i < list.len()
        invariant
            i <= list@.len(),
            all == name_pairs(list@),
            wanted@ == lowercase(query@),
            strings(out@) == hits(all.take(i as int), query@, most as nat),
        decreases list@.len() - i,
    {
        proof {
            assert(all.take(i + 1).drop_last() =~= all.take(i as int));
            assert(all.take(i + 1).last() == (list@[i as int].0@, list@[i as int].1@));
            assert(strings(out@).len() == out@.len());
        }
        let name = write_hit_name(list[i].0.as_str(), list[i].1.as_str());
        if out.len() < most {
            let lower = to_chars(lowered(name.as_str()).as_str());
            if has_str(lower.as_slice(), wanted.as_str()) {
                let ghost done = out@;
                out.push(name);
                proof {
                    assert(strings(out@) =~= strings(done).push(name@));
                }
            }
        }
        i += 1;
    }
    proof {
        assert(all.take(all.len() as int) =~= all);
    }
    out
}

/// No footprint has the text.
pub open spec fn no_hits(query: Seq<char>, n: nat) -> Seq<char> {
    "No footprints matching '"@ + query + "' found across "@ + decimal(n) + " libraries."@
}

fn write_no_hits(query: &str, n: usize) -> (out: String)
    ensures
        out@ == no_hits(query@, n as nat),
{
    let mut out = to_chars("No footprints matching '");
    extend_str(&mut out, query);
    extend_str(&mut out, "' found across ");
    let digits = number(n);
    extend(&mut out, digits.as_slice());
    extend_str(&mut out, " libraries.");
    proof {
        assert(out@ =~= no_hits(query@, n as nat));
    }
    to_text(out.as_slice())
}

/// The footprints that have the text.
pub open spec fn hits_found(n: nat, query: Seq<char>, note: Seq<char>, list: Seq<char>) -> Seq<char> {
    "Found "@ + decimal(n) + " match(es) for '"@ + query + "'"@ + note + ":\n\n"@ + list
}

fn write_hits_found(n: usize, query: &str, note: &str, list: &str) -> (out: String)
    ensures
        out@ == hits_found(n as nat, query@, note@, list@),
{
    let mut out = to_chars("Found ");
    let digits = number(n);
    extend(&mut out, digits.as_slice());
    extend_str(&mut out, " match(es) for '");
    extend_str(&mut out, query);
    extend_str(&mut out, "'");
    extend_str(&mut out, note);
    extend_str(&mut out, ":\n\n");
    extend_str(&mut out, list);
    proof {
        assert(out@ =~= hits_found(n as nat, query@, note@, list@));
    }
    to_text(out.as_slice())
}

/// What is told of a search for footprints.
pub open spec fn search_text(
    list: Seq<(Seq<char>, Seq<char>)>,
    libraries: nat,
    query: Seq<char>,
    most: nat,
) -> Seq<char> {
    let found = hits(list, query, most);
    if found.len() == 0 {
        no_hits(query, libraries)
    } else {
        hits_found(
            found.len(),
            query,
            if found.len() >= most {
                " (truncated)"@
            } else {
                ""@
            },
            joined(sorted(found), "\n"@),
        )
    }
}

/// Searches footprints, given with their libraries, for a text in their names. Stops at
/// the given number, or at 30.
pub fn search_footprint(
    list: &Vec<(String, String)>,
    libraries: usize,
    query: &str,
    max_results: Option<usize>,
) -> (out: String)
    ensures
        out@ == search_text(
            name_pairs(list@),
            libraries as nat,
            query@,
            match max_results {
                Some(m) => m as nat,
                None => 30,
            },
        ),
{
    let most: usize = match max_results {
        Some(m) => m,
        None => 30,
    };
    let found = find_hits(list, query, most);
    proof {
        assert(strings(found@).len() == found@.len());
    }
    if found.len() == 0 {
        return write_no_hits(query, libraries);
    }
    let note: &str = if found.len() >= most {
        " (truncated)"
    } else {
        ""
    };
    let all = join(&sort(&found), "\n");
    write_hits_found(found.len(), query, note, all.as_str())
}

/// A library and where it is.
pub open spec fn library_line(name: Seq<char>, path: Seq<char>) -> Seq<char> {
    "  "@ + name + "  ("@ + path + ")"@
}

fn write_library_line(name: &str, path: &str) -> (out: String)
    ensures
        out@ == library_line(name@, path@),
{
    let mut out = to_chars("  ");
    extend_str(&mut out, name);
    extend_str(&mut out, "  (");
    extend_str(&mut out, path);
    extend_str(&mut out, ")");
    proof {
        assert(out@ =~= library_line(name@, path@));
    }
    to_text(out.as_slice())
}

/// How many libraries there are.
pub open spec fn library_count(n: nat) -> Seq<char> {
    "Found "@ + decimal(n) + " footprint libraries:\n"@
}

fn write_library_count(n: usize) -> (out: String)
    ensures
        out@ == library_count(n as nat),
{
    let mut out = to_chars("Found ");
    let digits = number(n);
    extend(&mut out, digits.as_slice());
    extend_str(&mut out, " footprint libraries:\n");
    proof {
        assert(out@ =~= library_count(n as nat));
    }
    to_text(out.as_slice())
}

/// What is told where there is no library.
pub const NO_LIBRARIES: &'static str =
    "No footprint libraries found.\nInstall them with: sudo pacman -S kicad-library\nOr download via KiCad → PCM (Package and Content Manager).";

pub open spec fn library_lines(list: Seq<(Seq<char>, Seq<char>)>) -> Seq<Seq<char>> {
    list.map_values(|e: (Seq<char>, Seq<char>)| library_line(e.0, e.1))
}

/// Lists libraries, given with their places.
pub fn list_footprint_libraries(list: &Vec<(String, String)>) -> (out: String)
    ensures
        out@ == (if list@.len() == 0 {
            NO_LIBRARIES@
        } else {
            joined(
                seq![library_count(list@.len())] + library_lines(name_pairs(list@)),
                "\n"@,
            )
        }),
{
    if list.len() == 0 {
        return NO_LIBRARIES.to_string();
    }
    let mut rows: Vec<String> = Vec::new();
    rows.push(write_library_count(list.len()));
    let mut i: usize = 0;
    while i < list.len()
        invariant
            i <= list@.len(),
            rows@.len() == i + 1,
            rows@[0]@ == library_count(list@.len()),
            forall|j: int|
                0 <= j < i ==> (#[trigger] rows@[j + 1])@ == library_line(list@[j].0@, list@[j].1@),
        decreases list@.len() - i,
    {
        rows.push(write_library_line(list[i].0.as_str(), list[i].1.as_str()));
        i += 1;
    }
    proof {
        let wanted = seq![library_count(list@.len())] + library_lines(name_pairs(list@));
        assert forall|k: int| 0 <= k < wanted.len() implies strings(rows@)[k] == wanted[k] by {
            if k > 0 {
                assert(rows@[(k - 1) + 1]@ == library_line(list@[k - 1].0@, list@[k - 1].1@));
            }
        }
        assert(strings(rows@) =~= wanted);
    }
    join(&rows, "\n")
}

/// A library without footprints.
pub open spec fn library_empty(library: Seq<char>) -> Seq<char> {
    "No footprints found in library '"@ + library + "'"@
}

fn write_library_empty(library: &str) -> (out: String)
    ensures
        out@ == library_empty(library@),
{
    let mut out = to_chars("No footprints found in library '");
    extend_str(&mut out, library);
    extend_str(&mut out, "'");
    proof {
        assert(out@ =~= library_empty(library@));
    }
    to_text(out.as_slice())
}

/// The footprints of a library.
pub open spec fn library_content(library: Seq<char>, n: nat, list: Seq<char>) -> Seq<char> {
    "Library: "@ + library + " ("@ + decimal(n) + " footprints)\n\n"@ + list
}

fn write_library_content(library: &str, n: usize, list: &str) -> (out: String)
    ensures
        out@ == library_content(library@, n as nat, list@),
{
    let mut out = to_chars("Library: ");
    extend_str(&mut out, library);
    extend_str(&mut out, " (");
    let digits = number(n);
    extend(&mut out, digits.as_slice());
    extend_str(&mut out, " footprints)\n\n");
    extend_str(&mut out, list);
    proof {
        assert(out@ =~= library_content(library@, n as nat, list@));
    }
    to_text(out.as_slice())
}

/// Lists the footprints of a library in their order.
pub fn list_footprints_in_library(library: &str, names: &Vec<String>) -> (out: String)
    ensures
        out@ == (if names@.len() == 0 {
            library_empty(library@)
        } else {
            library_content(library@, names@.len(), joined(sorted(strings(names@)), "\n"@))
        }),
{
    if names.len() == 0 {
        return write_library_empty(library);
    }
    let all = join(&sort(names), "\n");
    write_library_content(library, names.len(), all.as_str())
}

/// What a file of a project is.
#[derive(Debug, Clone, Copy, PartialEq, Eq, Structural)]
pub enum ProjectFile {
    Board,
    Schematic,
    Project,
}

/// What a file is by the end of its name.
pub open spec fn kind_of(ending: Option<&str>) -> Option<ProjectFile> {
    match ending {
        Some(e) => if e@ == "kicad_pcb"@ {
            Some(ProjectFile::Board)
        } else if e@ == "kicad_sch"@ {
            Some(ProjectFile::Schematic)
        } else if e@ == "kicad_pro"@ {
            Some(ProjectFile::Project)
        } else {
            None
        },
        None => None,
    }
}

/// What a file is by the end of its name.
pub fn file_kind(ending: Option<&str>) -> (kind: Option<ProjectFile>)
    ensures
        kind == kind_of(ending),
{
    match ending {
        Some(e) => if same_str(e, "kicad_pcb") {
            Some(ProjectFile::Board)
        } else if same_str(e, "kicad_sch") {
            Some(ProjectFile::Schematic)
        } else if same_str(e, "kicad_pro") {
            Some(ProjectFile::Project)
        } else {
            None
        },
        None => None,
    }
}

/// Whether the files of a directory belong to the project: not those of hidden
/// directories, nor what was built.
pub fn looks_into(name: &str) -> (yes: bool)
    ensures
        yes == !(starts_with(name@, "."@) || name@ == "target"@ || name@ == "output"@),
{
    let text = to_chars(name);
    let dot = to_chars(".");
    let hidden: bool = has_at(text.as_slice(), dot.as_slice(), 0);
    !(hidden || same_str(name, "target") || same_str(name, "output"))
}

/// The files of a kind, under a heading; nothing if there are none.
pub open spec fn files_text(heading: Seq<char>, files: Seq<Seq<char>>) -> Seq<char> {
    if files.len() == 0 {
        Seq::empty()
    } else {
        heading + file_lines(files) + "\n"@
    }
}

/// A file in a list.
pub open spec fn file_line(path: Seq<char>) -> Seq<char> {
    "  "@ + path + "\n"@
}

fn write_file_line(path: &str) -> (out: String)
    ensures
        out@ == file_line(path@),
{
    let mut out = to_chars("  ");
    extend_str(&mut out, path);
    extend_str(&mut out, "\n");
    proof {
        assert(out@ =~= file_line(path@));
    }
    to_text(out.as_slice())
}

pub open spec fn file_lines(files: Seq<Seq<char>>) -> Seq<char>
    decreases files.len(),
{
    if files.len() == 0 {
        Seq::empty()
    } else {
        file_lines(files.drop_last()) + file_line(files.last())
    }
}

fn extend_file_lines(out: &mut Vec<char>, files: &Vec<String>)
    ensures
        final(out)@ == old(out)@ + file_lines(strings(files@)),
{
    let ghost all = strings(files@);
    let ghost head = out@;
    let mut i: usize = 0;
    proof {
        assert(all.take(0).len() == 0);
        assert(out@ =~= head + file_lines(all.take(0)));
    }
    while i < files.len()
        invariant
            i <= files@.len(),
            all == strings(files@),
            out@ == head + file_lines(all.take(i as int)),
        decreases files@.len() - i,
    {
        proof {
            assert(all.take(i + 1).drop_last() =~= all.take(i as int));
            assert(all.take(i + 1).last() == files@[i as int]@);
        }
        let line = write_file_line(files[i].as_str());
        extend_str(out, line.as_str());
        proof {
            assert(out@ =~= head + file_lines(all.take(i + 1)));
        }
        i += 1;
    }
    proof {
        assert(all.take(all.len() as int) =~= all);
    }
}

fn extend_files(out: &mut Vec<char>, heading: &str, files: &Vec<String>)
    ensures
        final(out)@ == old(out)@ + files_text(heading@, strings(files@)),
{
    proof {
        assert(strings(files@).len() == files@.len());
    }
    if files.len() > 0 {
        extend_str(out, heading);
        extend_file_lines(out, files);
        extend_str(out, "\n");
    }
    proof {
        assert(out@ =~= old(out)@ + files_text(heading@, strings(files@)));
    }
}

/// Nothing of a project was found.
pub open spec fn no_project(path: Seq<char>) -> Seq<char> {
    "No KiCad files found in '"@ + path + "'. Make sure the path is correct."@
}

fn write_no_project(path: &str) -> (out: String)
    ensures
        out@ == no_project(path@),
{
    let mut out = to_chars("No KiCad files found in '");
    extend_str(&mut out, path);
    extend_str(&mut out, "'. Make sure the path is correct.");
    proof {
        assert(out@ =~= no_project(path@));
    }
    to_text(out.as_slice())
}

/// Where a project is.
pub open spec fn project_head(path: Seq<char>) -> Seq<char> {
    "KiCad project at: "@ + path + "\n\n"@
}

fn write_project_head(path: &str) -> (out: String)
    ensures
        out@ == project_head(path@),
{
    let mut out = to_chars("KiCad project at: ");
    extend_str(&mut out, path);
    extend_str(&mut out, "\n\n");
    proof {
        assert(out@ =~= project_head(path@));
    }
    to_text(out.as_slice())
}

/// What is told of the files of a project.
pub open spec fn project_text(
    path: Seq<char>,
    boards: Seq<Seq<char>>,
    schematics: Seq<Seq<char>>,
    projects: Seq<Seq<char>>,
) -> Result<Seq<char>, Seq<char>> {
    if boards.len() == 0 && schematics.len() == 0 && projects.len() == 0 {
        Err(no_project(path))
    } else {
        Ok(
            project_head(path) + files_text("Project files:\n"@, projects) + files_text(
                "PCB files:\n"@,
                boards,
            ) + files_text("Schematic files:\n"@, schematics),
        )
    }
}

/// Tells which files a project has.
pub fn scan_project(
    path: &str,
    boards: &Vec<String>,
    schematics: &Vec<String>,
    projects: &Vec<String>,
) -> (out: Result<String, String>)
    ensures
        crate::edits::answer_model(out) == project_text(
            path@,
            strings(boards@),
            strings(schematics@),
            strings(projects@),
        ),
{
    proof {
        assert(strings(boards@).len() == boards@.len());
        assert(strings(schematics@).len() == schematics@.len());
        assert(strings(projects@).len() == projects@.len());
    }
    if boards.len() == 0 && schematics.len() == 0 && projects.len() == 0 {
        return Err(write_no_project(path));
    }
    let mut out = to_chars(write_project_head(path).as_str());
    extend_files(&mut out, "Project files:\n", projects);
    extend_files(&mut out, "PCB files:\n", boards);
    extend_files(&mut out, "Schematic files:\n", schematics);
    Ok(to_text(out.as_slice()))
}

/// The layers that are made unless others are asked for.
pub const FAB_LAYERS: &'static str =
    "F.Cu,B.Cu,F.Mask,B.Mask,F.SilkS,B.SilkS,F.Paste,B.Paste,Edge.Cuts";

/// The layers to be made.
pub fn fab_layers<'a>(layers: Option<&'a str>) -> (out: &'a str)
    ensures
        out@ == match layers {
            Some(l) => l@,
            None => FAB_LAYERS@,
        },
{
    match layers {
        Some(l) => l,
        None => FAB_LAYERS,
    }
}

/// What was said while layers were made.
pub open spec fn gerber_note(said: Seq<char>) -> Seq<char> {
    "Gerber warnings:\n"@ + said + "\n"@
}

fn write_gerber_note(said: &str) -> (out: String)
    ensures
        out@ == gerber_note(said@),
{
    let mut out = to_chars("Gerber warnings:\n");
    extend_str(&mut out, said);
    extend_str(&mut out, "\n");
    proof {
        assert(out@ =~= gerber_note(said@));
    }
    to_text(out.as_slice())
}

/// What was said while holes were made.
pub open spec fn drill_note(said: Seq<char>) -> Seq<char> {
    "Drill warnings:\n"@ + said + "\n"@
}

fn write_drill_note(said: &str) -> (out: String)
    ensures
        out@ == drill_note(said@),
{
    let mut out = to_chars("Drill warnings:\n");
    extend_str(&mut out, said);
    extend_str(&mut out, "\n");
    proof {
        assert(out@ =~= drill_note(said@));
    }
    to_text(out.as_slice())
}

/// How many files there are, and where.
pub open spec fn fab_count(n: nat, dir: Seq<char>) -> Seq<char> {
    "\nGenerated "@ + decimal(n) + " file(s) in "@ + dir + ":\n"@
}

fn write_fab_count(n: usize, dir: &str) -> (out: String)
    ensures
        out@ == fab_count(n as nat, dir@),
{
    let mut out = to_chars("\nGenerated ");
    let digits = number(n);
    extend(&mut out, digits.as_slice());
    extend_str(&mut out, " file(s) in ");
    extend_str(&mut out, dir);
    extend_str(&mut out, ":\n");
    proof {
        assert(out@ =~= fab_count(n as nat, dir@));
    }
    to_text(out.as_slice())
}

/// Where the archive is.
pub open spec fn fab_archive(path: Seq<char>) -> Seq<char> {
    "\nZip archive: "@ + path
}

fn write_fab_archive(path: &str) -> (out: String)
    ensures
        out@ == fab_archive(path@),
{
    let mut out = to_chars("\nZip archive: ");
    extend_str(&mut out, path);
    proof {
        assert(out@ =~= fab_archive(path@));
    }
    to_text(out.as_slice())
}

/// What is told of files for fabrication.
pub open spec fn fab_text(
    gerber: Option<&str>,
    drill: Option<&str>,
    dir: Seq<char>,
    files: Seq<Seq<char>>,
    archive: Option<&str>,
) -> Seq<char> {
    let first = match gerber {
        Some(s) => gerber_note(s@),
        None => Seq::empty(),
    };
    let second = match drill {
        Some(s) => drill_note(s@),
        None => Seq::empty(),
    };
    let last = match archive {
        Some(p) => fab_archive(p@),
        None => Seq::empty(),
    };
    first + second + fab_count(files.len(), dir) + file_lines(sorted(files)) + last
}

/// Tells which files for fabrication were made. `gerber` and `drill` hold what was said
/// if making them did not go well.
pub fn describe_fabrication(
    gerber: Option<&str>,
    drill: Option<&str>,
    dir: &str,
    files: &Vec<String>,
    archive: Option<&str>,
) -> (out: String)
    ensures
        out@ == fab_text(gerber, drill, dir@, strings(files@), archive),
{
    let mut out: Vec<char> = Vec::new();
    match gerber {
        Some(s) => {
            let note = write_gerber_note(s);
            extend_str(&mut out, note.as_str());
        },
        None => {},
    }
    match drill {
        Some(s) => {
            let note = write_drill_note(s);
            extend_str(&mut out, note.as_str());
        },
        None => {},
    }
    proof {
        assert(strings(files@).len() == files@.len());
    }
    let count = write_fab_count(files.len(), dir);
    extend_str(&mut out, count.as_str());
    let ordered = sort(files);
    extend_file_lines(&mut out, &ordered);
    match archive {
        Some(p) => {
            let note = write_fab_archive(p);
            extend_str(&mut out, note.as_str());
        },
        None => {},
    }
    proof {
        assert(out@ =~= fab_text(gerber, drill, dir@, strings(files@), archive));
    }
    to_text(out.as_slice())
}

/// Why zones were not filled.
pub open spec fn zones_failed(code: int, said: Seq<char>) -> Seq<char> {
    "Zone fill failed (exit "@ + sign(code) + decimal(magnitude(code) as nat) + "):\n"@ + said
}

fn write_zones_failed(code: i64, said: &str) -> (out: String)
    ensures
        out@ == zones_failed(code as int, said@),
{
    let mut out = to_chars("Zone fill failed (exit ");
    extend_sign(&mut out, code as i128);
    extend_decimal(&mut out, size_of(code as i128));
    extend_str(&mut out, "):\n");
    extend_str(&mut out, said);
    proof {
        assert(out@ =~= zones_failed(code as int, said@));
    }
    to_text(out.as_slice())
}

/// A board whose zones were filled.
pub open spec fn zones_filled(path: Seq<char>) -> Seq<char> {
    "Zones filled and board saved: "@ + path
}

fn write_zones_filled(path: &str) -> (out: String)
    ensures
        out@ == zones_filled(path@),
{
    let mut out = to_chars("Zones filled and board saved: ");
    extend_str(&mut out, path);
    proof {
        assert(out@ =~= zones_filled(path@));
    }
    to_text(out.as_slice())
}

/// Tells what came of filling zones: it failed if the program says so and why.
pub fn describe_zone_fill(path: &str, code: i64, said: &str) -> (out: Result<String, String>)
    ensures
        crate::edits::answer_model(out) == (if code != 0 && said@.len() > 0 {
            Err(zones_failed(code as int, said@))
        } else {
            Ok(zones_filled(path@))
        }),
{
    let chars = to_chars(said);
    if code != 0 && chars.len() > 0 {
        Err(write_zones_failed(code, said))
    } else {
        Ok(write_zones_filled(path))
    }
}

/// A board that was converted.
pub open spec fn converted(path: Seq<char>, side: Seq<char>, n: nat, list: Seq<char>) -> Seq<char> {
    "Converted "@ + path + side + " successfully.\nTriangles: "@ + decimal(n)
        + "\nOutput files:\n"@ + list
}

fn write_converted(path: &str, side: &str, n: usize, list: &str) -> (out: String)
    ensures
        out@ == converted(path@, side@, n as nat, list@),
{
    let mut out = to_chars("Converted ");
    extend_str(&mut out, path);
    extend_str(&mut out, side);
    extend_str(&mut out, " successfully.\nTriangles: ");
    let digits = number(n);
    extend(&mut out, digits.as_slice());
    extend_str(&mut out, "\nOutput files:\n");
    extend_str(&mut out, list);
    proof {
        assert(out@ =~= converted(path@, side@, n as nat, list@));
    }
    to_text(out.as_slice())
}

pub open spec fn side_note(side: Option<Side>) -> Seq<char> {
    match side {
        Some(Side::Top) => " (top only)"@,
        Some(Side::Bottom) => " (bottom only)"@,
        None => ""@,
    }
}

/// Tells what a board was converted to.
pub fn describe_conversion(path: &str, side: Option<Side>, triangles: usize, files: &Vec<String>) -> (out:
    String)
    ensures
        out@ == converted(
            path@,
            side_note(side),
            triangles as nat,
            joined(strings(files@), "\n"@),
        ),
{
    let note: &str = match side {
        Some(Side::Top) => " (top only)",
        Some(Side::Bottom) => " (bottom only)",
        None => "",
    };
    let all = join(files, "\n");
    write_converted(path, note, triangles, all.as_str())
}

/// A format that is not known.
pub open spec fn bad_format(why: Seq<char>) -> Seq<char> {
    "Invalid output format: "@ + why
}

fn write_bad_format(why: &str) -> (out: String)
    ensures
        out@ == bad_format(why@),
{
    let mut out = to_chars("Invalid output format: ");
    extend_str(&mut out, why);
    proof {
        assert(out@ =~= bad_format(why@));
    }
    to_text(out.as_slice())
}

/// What a conversion is to change of the settings. Lengths are in nanometres.
#[derive(Debug)]
pub struct ConvertPcbParams {
    pub input_path: String,
    pub output_dir: Option<String>,
    pub channel_width: Option<i64>,
    pub channel_depth: Option<i64>,
    pub substrate_thickness: Option<i64>,
    pub output_format: Option<String>,
    pub side: Option<String>,
}

/// Whether nothing is changed but what a conversion may change.
pub open spec fn nothing_else(o: CliOverrides) -> bool {
    &&& o.via_style is None
    &&& o.channel_profile is None
    &&& o.channel_floor_width is None
    &&& o.taper_slice_height is None
    &&& o.cone_angle is None
    &&& o.throat_height is None
    &&& o.min_rim is None
    &&& o.eyelet_style is None
    &&& o.eyelet_diameter is None
    &&& o.indent_depth is None
    &&& o.pad_hole_diameter is None
    &&& o.scale_factor is None
    &&& o.generate_pad_holes is None
    &&& o.generate_pad_lands is None
    &&& o.generate_via_indents is None
    &&& o.generate_stencil is None
    &&& o.stencil_plating_bus is None
    &&& o.stencil_mount is None
    &&& o.mode is None
}

/// What a conversion changes of the settings; none if it asks for a format that is not
/// known.
pub fn conversion_overrides(p: ConvertPcbParams) -> (out: Result<CliOverrides, String>)
    ensures
        match (p.output_format, out) {
            (None, Ok(o)) => o.output_format is None,
            (Some(f), Ok(o)) => output_format_named(lowercase(f@)) is Some && o.output_format
                == output_format_named(lowercase(f@)),
            (Some(f), Err(why)) => output_format_named(lowercase(f@)) is None && why@ == bad_format(
                unknown("format"@, lowercase(f@), "'stl', '3mf', or 'both'"@),
            ),
            (None, Err(_)) => false,
        },
        out matches Ok(o) ==> {
            &&& o.output_dir == p.output_dir
            &&& o.channel_width == p.channel_width
            &&& o.channel_depth == p.channel_depth
            &&& o.substrate_thickness == p.substrate_thickness
            &&& nothing_else(o)
        },
{
    let mut o = CliOverrides::default();
    match &p.output_format {
        None => {},
        Some(f) => {
            match OutputFormat::from_str(f.as_str()) {
                Ok(v) => {
                    o.output_format = Some(v);
                },
                Err(why) => {
                    return Err(write_bad_format(why.as_str()));
                },
            }
        },
    }
    o.output_dir = p.output_dir;
    o.channel_width = p.channel_width;
    o.channel_depth = p.channel_depth;
    o.substrate_thickness = p.substrate_thickness;
    Ok(o)
}

} // verus!
