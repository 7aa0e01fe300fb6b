//! The build guide: one page with the steps, the continuity test and the model.

use crate::config::{step_model, step_models, AssemblyStep, Config, StepModel};
use crate::drawing::{
    build_parts_table, escaped, html_escape, parts_table, render_assembly_svg, step_drawing,
};
use crate::guide_text::{
    MODEL_SCRIPT, PAGE_END, PAGE_HEADER, PAGE_MODEL, PAGE_PROBE_TAB, PAGE_START, PAGE_STEPS,
    PAGE_STEPS_END, PAGE_STYLE, PAGE_TABS, PROBE_BOARD, PROBE_DETAIL, PROBE_END, PROBE_PLANE,
    PROBE_SCRIPT, PROBE_START, STEPS_SCRIPT, STYLE, TABS_SCRIPT,
};
use crate::pcb::PcbData;
use crate::probe::{
    collect_continuity, continuity, continuity_model, ContinuityData, ContinuityModel,
};
use crate::steps::{choose_steps, fits_plating, guide_steps, says_plating};
use crate::strings::{decimal, joined, join, number, replace, replaced, strings};
use crate::text::{extend, extend_str, to_chars, to_text};
use vstd::prelude::*;

verus! {

pub open spec fn data_of(d: Option<ContinuityData>) -> Option<ContinuityModel> {
    match d {
        Some(d) => Some(continuity_model(d)),
        None => None,
    }
}

/// A text as a literal of the script, where it can hold no value to be filled in.
pub open spec fn literal(text: Seq<char>) -> Seq<char> {
    "`"@ + replaced(text, "`"@, "\\`"@) + "`"@
}

/// A text as a literal of the script, with what would be taken for a value to be
/// filled in spelt out.
pub open spec fn raw_literal(text: Seq<char>) -> Seq<char> {
    "`"@ + replaced(replaced(text, "`"@, "\\`"@), "${"@, "\\${"@) + "`"@
}

fn as_literal(text: &str) -> (out: String)
    ensures
        out@ == literal(text@),
{
    let start = to_chars(text);
    let inner = replace(start.as_slice(), to_chars("`").as_slice(), to_chars("\\`").as_slice());
    let mut out = to_chars("`");
    extend(&mut out, inner.as_slice());
    extend_str(&mut out, "`");
    to_text(out.as_slice())
}

fn as_raw_literal(text: &str) -> (out: String)
    ensures
        out@ == raw_literal(text@),
{
    let start = to_chars(text);
    let one = replace(start.as_slice(), to_chars("`").as_slice(), to_chars("\\`").as_slice());
    let two = replace(one.as_slice(), to_chars("${").as_slice(), to_chars("\\${").as_slice());
    let mut out = to_chars("`");
    extend(&mut out, two.as_slice());
    extend_str(&mut out, "`");
    to_text(out.as_slice())
}

pub open spec fn drawings(pcb: PcbData, steps: Seq<StepModel>) -> Seq<Seq<char>> {
    Seq::new(steps.len(), |i: int| raw_literal(step_drawing(pcb, steps, i)))
}

pub open spec fn titles(steps: Seq<StepModel>) -> Seq<Seq<char>> {
    steps.map_values(|s: StepModel| literal(escaped(s.name)))
}

pub open spec fn instructions(steps: Seq<StepModel>) -> Seq<Seq<char>> {
    steps.map_values(|s: StepModel| literal(escaped(s.instruction)))
}

pub open spec fn tables(pcb: PcbData, steps: Seq<StepModel>) -> Seq<Seq<char>> {
    steps.map_values(|s: StepModel| raw_literal(parts_table(pcb.footprints@, s)))
}

/// The panel of the continuity test.
pub open spec fn probe_panel(d: ContinuityModel) -> Seq<char> {
    PROBE_START@ + decimal(d.total_nets) + PROBE_BOARD@ + d.viewbox + PROBE_PLANE@ + "      "@
        + d.bg_rect + "\n"@ + (if d.board_img.len() > 0 {
        "      "@ + d.board_img + "\n"@
    } else {
        Seq::empty()
    }) + "      "@ + d.board_outline_svg + "\n"@ + PROBE_DETAIL@ + decimal(d.total_nets)
        + PROBE_END@
}

/// The data of the continuity test.
pub open spec fn probe_data(d: Option<ContinuityModel>) -> Seq<char> {
    match d {
        Some(d) => "const C_PADS=["@ + d.pads_js + "];\n"@ + "const C_STEPS=["@ + d.steps_js
            + "];\n"@ + "const C_TOTAL="@ + decimal(d.total_nets) + ";\n"@,
        None => "const C_PADS=[];\nconst C_STEPS=[];\nconst C_TOTAL=0;\n"@,
    }
}

/// The model as data, if there is one.
pub open spec fn model_data(model: Option<String>) -> Seq<char> {
    match model {
        Some(data) => "const GLB_B64=\""@ + data@ + "\";\n"@,
        None => "const GLB_B64=null;\n"@,
    }
}

/// A list as data.
pub open spec fn list_data(name: Seq<char>, list: Seq<Seq<char>>) -> Seq<char> {
    name + joined(list, ","@) + "];\n"@
}

/// The steps as data.
pub open spec fn steps_data(pcb: PcbData, steps: Seq<StepModel>) -> Seq<char> {
    list_data("const A_SVGS=["@, drawings(pcb, steps)) + list_data(
        "const A_TITLES=["@,
        titles(steps),
    ) + list_data("const A_INSTRS=["@, instructions(steps)) + list_data(
        "const A_PARTS=["@,
        tables(pcb, steps),
    ) + ("const A_TOTAL="@ + decimal(steps.len()) + ";\n"@)
}

proof fn lemma_append(a: Seq<char>, b: Seq<char>, c: Seq<char>)
    ensures
        (a + b) + c == a + (b + c),
{
    assert((a + b) + c =~= a + (b + c));
}

/// Everything before the data.
pub open spec fn page_head(stem: Seq<char>, total: nat, d: Option<ContinuityModel>) -> Seq<char> {
    PAGE_START@ + escaped(stem) + PAGE_STYLE@ + STYLE@ + PAGE_HEADER@ + escaped(stem) + PAGE_TABS@
        + (if d is Some {
        PAGE_PROBE_TAB@
    } else {
        Seq::empty()
    }) + PAGE_STEPS@ + decimal(total) + PAGE_STEPS_END@ + (match d {
        Some(d) => probe_panel(d),
        None => Seq::empty(),
    }) + PAGE_MODEL@
}

/// The page.
pub open spec fn page(
    pcb: PcbData,
    steps: Seq<StepModel>,
    stem: Seq<char>,
    model: Option<String>,
    image: Option<String>,
) -> Seq<char> {
    let d = continuity(pcb, image);
    page_head(stem, steps.len(), d) + steps_data(pcb, steps) + probe_data(d) + model_data(model)
        + STEPS_SCRIPT@ + PROBE_SCRIPT@ + MODEL_SCRIPT@ + TABS_SCRIPT@ + PAGE_END@
}

fn extend_panel(out: &mut Vec<char>, d: &ContinuityData)
    ensures
        final(out)@ == old(out)@ + probe_panel(continuity_model(*d)),
{
    let total = number(d.total_nets);
    extend_str(out, PROBE_START);
    extend(out, total.as_slice());
    extend_str(out, PROBE_BOARD);
    extend_str(out, d.viewbox.as_str());
    extend_str(out, PROBE_PLANE);
    extend_str(out, "      ");
    extend_str(out, d.bg_rect.as_str());
    extend_str(out, "\n");
    let ghost one = out@;
    let image = to_chars(d.board_img.as_str());
    if image.len() > 0 {
        extend_str(out, "      ");
        extend_str(out, d.board_img.as_str());
        extend_str(out, "\n");
    }
    let ghost two = out@;
    extend_str(out, "      ");
    extend_str(out, d.board_outline_svg.as_str());
    extend_str(out, "\n");
    extend_str(out, PROBE_DETAIL);
    extend(out, total.as_slice());
    extend_str(out, PROBE_END);
    proof {
        let m = continuity_model(*d);
        let picture = if m.board_img.len() > 0 {
            "      "@ + m.board_img + "\n"@
        } else {
            Seq::empty()
        };
        assert(one =~= old(out)@ + (PROBE_START@ + decimal(m.total_nets) + PROBE_BOARD@ + m.viewbox
            + PROBE_PLANE@ + "      "@ + m.bg_rect + "\n"@));
        assert(two =~= one + picture);
        assert(out@ =~= two + ("      "@ + m.board_outline_svg + "\n"@ + PROBE_DETAIL@ + decimal(
            m.total_nets,
        ) + PROBE_END@));
        assert(out@ =~= old(out)@ + probe_panel(m));
    }
}

fn extend_head(out: &mut Vec<char>, stem: &str, total: usize, d: &Option<ContinuityData>)
    ensures
        final(out)@ == old(out)@ + page_head(stem@, total as nat, data_of(*d)),
{
    let name = html_escape(stem);
    extend_str(out, PAGE_START);
    extend_str(out, name.as_str());
    extend_str(out, PAGE_STYLE);
    extend_str(out, STYLE);
    extend_str(out, PAGE_HEADER);
    extend_str(out, name.as_str());
    extend_str(out, PAGE_TABS);
    let ghost one = out@;
    match d {
        Some(_) => {
            extend_str(out, PAGE_PROBE_TAB);
        },
        None => {},
    }
    let ghost two = out@;
    extend_str(out, PAGE_STEPS);
    let digits = number(total);
    extend(out, digits.as_slice());
    extend_str(out, PAGE_STEPS_END);
    let ghost three = out@;
    match d {
        Some(data) => extend_panel(out, data),
        None => {},
    }
    let ghost four = out@;
    extend_str(out, PAGE_MODEL);
    proof {
        let m = data_of(*d);
        let tab = if m is Some {
            PAGE_PROBE_TAB@
        } else {
            Seq::empty()
        };
        let panel = match m {
            Some(d) => probe_panel(d),
            None => Seq::empty(),
        };
        assert(two =~= one + tab);
        assert(four =~= three + panel);
        assert(out@ =~= old(out)@ + page_head(stem@, total as nat, m));
    }
}

fn extend_list(out: &mut Vec<char>, name: &str, list: &Vec<String>)
    ensures
        final(out)@ == old(out)@ + list_data(name@, strings(list@)),
{
    extend_str(out, name);
    let text = join(list, ",");
    extend_str(out, text.as_str());
    extend_str(out, "];\n");
    proof {
        assert(out@ =~= old(out)@ + list_data(name@, strings(list@)));
    }
}

fn show_steps(pcb: &PcbData, steps: &Vec<AssemblyStep>) -> (lists: (
    Vec<String>,
    Vec<String>,
    Vec<String>,
    Vec<String>,
))
    ensures
        strings(lists.0@) == drawings(*pcb, step_models(steps@)),
        strings(lists.1@) == titles(step_models(steps@)),
        strings(lists.2@) == instructions(step_models(steps@)),
        strings(lists.3@) == tables(*pcb, step_models(steps@)),
{
    let ghost models = step_models(steps@);
    let mut svgs: Vec<String> = Vec::new();
    let mut names: Vec<String> = Vec::new();
    let mut texts: Vec<String> = Vec::new();
    let mut lists: Vec<String> = Vec::new();
    let mut i: usize = 0;
    while i < steps.len()
        invariant
            i <= steps@.len(),
            models == step_models(steps@),
            svgs@.len() == i,
            names@.len() == i,
            texts@.len() == i,
            lists@.len() == i,
            forall|j: int| 0 <= j < i ==> (#[trigger] svgs@[j])@ == drawings(*pcb, models)[j],
            forall|j: int| 0 <= j < i ==> (#[trigger] names@[j])@ == titles(models)[j],
            forall|j: int| 0 <= j < i ==> (#[trigger] texts@[j])@ == instructions(models)[j],
            forall|j: int| 0 <= j < i ==> (#[trigger] lists@[j])@ == tables(*pcb, models)[j],
        decreases steps@.len() - i,
    {
        assert(models[i as int] == step_model(steps@[i as int]));
        let svg = render_assembly_svg(pcb, i, steps);
        svgs.push(as_raw_literal(svg.as_str()));
        let name = html_escape(steps[i].name.as_str());
        names.push(as_literal(name.as_str()));
        let text = html_escape(steps[i].instruction.as_str());
        texts.push(as_literal(text.as_str()));
        let list = build_parts_table(pcb, &steps[i]);
        lists.push(as_raw_literal(list.as_str()));
        i += 1;
    }
    proof {
        assert(strings(svgs@) =~= drawings(*pcb, models));
        assert(strings(names@) =~= titles(models));
        assert(strings(texts@) =~= instructions(models));
        assert(strings(lists@) =~= tables(*pcb, models));
    }
    (svgs, names, texts, lists)
}

fn extend_steps(out: &mut Vec<char>, pcb: &PcbData, steps: &Vec<AssemblyStep>)
    ensures
        final(out)@ == old(out)@ + steps_data(*pcb, step_models(steps@)),
{
    let ghost models = step_models(steps@);
    let (svgs, names, texts, lists) = show_steps(pcb, steps);
    let ghost start = out@;
    let ghost one = list_data("const A_SVGS=["@, drawings(*pcb, models));
    let ghost two = list_data("const A_TITLES=["@, titles(models));
    let ghost three = list_data("const A_INSTRS=["@, instructions(models));
    let ghost four = list_data("const A_PARTS=["@, tables(*pcb, models));
    let ghost five = "const A_TOTAL="@ + decimal(models.len()) + ";\n"@;
    extend_list(out, "const A_SVGS=[", &svgs);
    extend_list(out, "const A_TITLES=[", &names);
    extend_list(out, "const A_INSTRS=[", &texts);
    extend_list(out, "const A_PARTS=[", &lists);
    proof {
        lemma_append(start, one, two);
        lemma_append(start, one + two, three);
        lemma_append(start, one + two + three, four);
        lemma_append(start, one + two + three + four, five);
    }
    extend_total(out, steps.len());
    proof {
        assert(models.len() == steps@.len());
    }
}

fn extend_total(out: &mut Vec<char>, n: usize)
    ensures
        final(out)@ == old(out)@ + ("const A_TOTAL="@ + decimal(n as nat) + ";\n"@),
{
    extend_str(out, "const A_TOTAL=");
    let digits = number(n);
    extend(out, digits.as_slice());
    extend_str(out, ";\n");
    proof {
        assert(out@ =~= old(out)@ + ("const A_TOTAL="@ + decimal(n as nat) + ";\n"@));
    }
}

fn extend_data(out: &mut Vec<char>, d: &Option<ContinuityData>, model: &Option<String>)
    ensures
        final(out)@ == old(out)@ + probe_data(data_of(*d)) + model_data(*model),
{
    match d {
        Some(d) => {
            extend_str(out, "const C_PADS=[");
            extend_str(out, d.pads_js.as_str());
            extend_str(out, "];\n");
            extend_str(out, "const C_STEPS=[");
            extend_str(out, d.steps_js.as_str());
            extend_str(out, "];\n");
            extend_str(out, "const C_TOTAL=");
            let digits = number(d.total_nets);
            extend(out, digits.as_slice());
            extend_str(out, ";\n");
            proof {
                assert(out@ =~= old(out)@ + probe_data(Some(continuity_model(*d))));
            }
        },
        None => {
            extend_str(out, "const C_PADS=[];\nconst C_STEPS=[];\nconst C_TOTAL=0;\n");
        },
    }
    let ghost one = out@;
    match model {
        Some(data) => {
            extend_str(out, "const GLB_B64=\"");
            extend_str(out, data.as_str());
            extend_str(out, "\";\n");
        },
        None => {
            extend_str(out, "const GLB_B64=null;\n");
        },
    }
    proof {
        assert(out@ =~= one + model_data(*model));
    }
}

/// Writes the guide from its steps. `model` and `image` are the model and the picture
/// of the board as data, if they could be made.
pub fn write_page(
    pcb: &PcbData,
    steps: &Vec<AssemblyStep>,
    stem: &str,
    model: &Option<String>,
    image: &Option<String>,
) -> (out: String)
    ensures
        out@ == page(*pcb, step_models(steps@), stem@, *model, *image),
{
    let d = collect_continuity(pcb, image);
    let mut out: Vec<char> = Vec::new();
    proof {
        assert(step_models(steps@).len() == steps@.len());
    }
    extend_head(&mut out, stem, steps.len(), &d);
    let ghost head = out@;
    proof {
        assert(head =~= page_head(stem@, steps@.len(), continuity(*pcb, *image)));
    }
    extend_steps(&mut out, pcb, steps);
    extend_data(&mut out, &d, model);
    extend_str(&mut out, STEPS_SCRIPT);
    extend_str(&mut out, PROBE_SCRIPT);
    extend_str(&mut out, MODEL_SCRIPT);
    extend_str(&mut out, TABS_SCRIPT);
    extend_str(&mut out, PAGE_END);
    proof {
        assert(out@ =~= page(*pcb, step_models(steps@), stem@, *model, *image));
    }
    to_text(out.as_slice())
}

/// Writes the guide. `length` is the length of all traces. There is no guide without
/// steps.
pub fn write_guide(
    pcb: &PcbData,
    config: &Config,
    length: i64,
    stem: &str,
    model: &Option<String>,
    image: &Option<String>,
) -> (out: Option<String>)
    requires
        says_plating(*config) ==> fits_plating(length, *config),
    ensures
        ({
            let steps = guide_steps(*pcb, *config, length);
            if steps.len() == 0 {
                out is None
            } else {
                out matches Some(text) && text@ == page(*pcb, steps, stem@, *model, *image)
            }
        }),
{
    let steps = choose_steps(pcb, config, length);
    proof {
        assert(step_models(steps@).len() == steps@.len());
    }
    if steps.len() == 0 {
        return None;
    }
    Some(write_page(pcb, &steps, stem, model, image))
}

} // verus!
