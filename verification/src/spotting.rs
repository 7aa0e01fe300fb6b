//! Where the pads of a part are told to be, and what other programs are asked for.

use crate::listing::{lemma_picked_next, picked_next, picks};
use crate::measuring::is_nearest;
use crate::routing::{check_args, router_args, target, Job};
use crate::solid::steps;
use crate::spots::{all_on_board, on_board, spot_found, spots_found, spots_report, SpotModel};
use crate::strings::{decimal, joined};
use crate::tools::{kind_of, render_request, ProjectFile};
use vstd::prelude::*;

verus! {

/// A pad lies where turning it about the place of its part brings it; its number and layer
/// stay.
pub proof fn lemma_pad_turns_with_its_part(s: SpotModel, at: (int, int, int), cos: int, sin: int)
    ensures
        is_nearest(on_board(s, at, cos, sin).x - at.0, s.x * cos - s.y * sin),
        is_nearest(on_board(s, at, cos, sin).y - at.1, s.x * sin + s.y * cos),
        on_board(s, at, cos, sin).number == s.number,
        on_board(s, at, cos, sin).layer == s.layer,
{
}

/// The pads that stay in range.
pub open spec fn stays_on(list: Seq<SpotModel>, at: (int, int, int), cos: int, sin: int) -> spec_fn(
    int,
) -> bool {
    |i: int|
        {
            let s = on_board(list[i], at, cos, sin);
            i64::MIN <= s.x <= i64::MAX && i64::MIN <= s.y <= i64::MAX
        }
}

/// All pads of a part that stay in range are told, in their order.
pub proof fn lemma_pads_are_told(list: Seq<SpotModel>, at: (int, int, int), cos: int, sin: int) -> (on:
    Seq<int>)
    ensures
        picks(on, list.len() as int, stays_on(list, at, cos, sin)),
        all_on_board(list, at, cos, sin) == on.map_values(|i: int| on_board(list[i], at, cos, sin)),
    decreases list.len(),
{
    if list.len() == 0 {
        let on = Seq::<int>::empty();
        assert(all_on_board(list, at, cos, sin) =~= on.map_values(
            |i: int| on_board(list[i], at, cos, sin),
        ));
        on
    } else {
        let front = list.drop_last();
        let on = lemma_pads_are_told(front, at, cos, sin);
        let n = list.len() - 1;
        let p = stays_on(list, at, cos, sin);
        lemma_picked_next(on, n, stays_on(front, at, cos, sin), p);
        let more = picked_next(on, n, p);
        assert forall|k: int| 0 <= k < on.len() implies front[on[k]] == list[on[k]] by {}
        assert(all_on_board(list, at, cos, sin) =~= more.map_values(
            |i: int| on_board(list[i], at, cos, sin),
        ));
        more
    }
}

/// The pads that have a number.
pub open spec fn has_number(list: Seq<SpotModel>, number: Seq<char>) -> spec_fn(int) -> bool {
    |i: int| list[i].number == number
}

/// Asked for a number, all pads that have it are told, one line each; where none has it,
/// that is said.
pub proof fn lemma_pads_with_a_number_are_told(
    list: Seq<SpotModel>,
    reference: Seq<char>,
    number: &str,
) -> (at: Seq<int>)
    ensures
        picks(at, list.len() as int, has_number(list, number@)),
        spots_found(list, reference, number@) == at.map_values(
            |i: int| spot_found(number@, reference, list[i].layer, list[i].x, list[i].y),
        ),
        at.len() == 0 ==> spots_report(list, reference, Some(number)) == "Pad "@ + number@
            + " not found in "@ + reference,
        at.len() > 0 ==> spots_report(list, reference, Some(number)) == joined(
            spots_found(list, reference, number@),
            "\n"@,
        ),
    decreases list.len(),
{
    if list.len() == 0 {
        let at = Seq::<int>::empty();
        assert(spots_found(list, reference, number@) =~= at.map_values(
            |i: int| spot_found(number@, reference, list[i].layer, list[i].x, list[i].y),
        ));
        at
    } else {
        let front = list.drop_last();
        let at = lemma_pads_with_a_number_are_told(front, reference, number);
        let n = list.len() - 1;
        let p = has_number(list, number@);
        lemma_picked_next(at, n, has_number(front, number@), p);
        let more = picked_next(at, n, p);
        assert forall|k: int| 0 <= k < at.len() implies front[at[k]] == list[at[k]] by {}
        assert(spots_found(list, reference, number@) =~= more.map_values(
            |i: int| spot_found(number@, reference, list[i].layer, list[i].x, list[i].y),
        ));
        more
    }
}

/// Whether an option is given with a value.
pub open spec fn gives(args: Seq<Seq<char>>, option: Seq<char>, value: Seq<char>) -> bool {
    exists|k: int| 0 <= k < args.len() - 1 && #[trigger] args[k] == option && args[k + 1] == value
}

/// The router is run from its file without a window, on what went out of the board, and
/// writes where the routes are fetched from; it goes over the board as often as asked for.
pub proof fn lemma_router_is_told_its_files(job: Job)
    ensures
        gives(router_args(job), "-jar"@, job.jar@),
        gives(router_args(job), "-de"@, job.dsn@),
        gives(router_args(job), "-do"@, job.ses@),
        gives(router_args(job), "-mp"@, decimal(job.passes as nat)),
        router_args(job).contains("--gui.enabled=false"@),
{
    let args = router_args(job);
    assert(args[0] == "-jar"@ && args[1] == job.jar@);
    assert(args[2] == "--gui.enabled=false"@);
    assert(args[3] == "-de"@ && args[4] == job.dsn@);
    assert(args[5] == "-do"@ && args[6] == job.ses@);
    assert(args[7] == "-mp"@ && args[8] == decimal(job.passes as nat));
}

/// What is checked for faults is the board that the routes went to: the board itself if it
/// is to be written, else the copy.
pub proof fn lemma_routed_board_is_checked(job: Job)
    ensures
        job.saves ==> check_args(job).last() == job.path@,
        !job.saves ==> check_args(job).last() == job.copy@,
        target(job) == check_args(job).last(),
        gives(check_args(job), "--output"@, job.report@),
        gives(check_args(job), "--format"@, "json"@),
        check_args(job).contains("--severity-error"@),
        check_args(job)[0] == "pcb"@ && check_args(job)[1] == "drc"@,
{
    let args = check_args(job);
    assert(args[2] == "--output"@ && args[3] == job.report@);
    assert(args[4] == "--format"@ && args[5] == "json"@);
    assert(args[6] == "--severity-error"@);
}

/// The renderer is told each setting behind its name, and the board last.
pub proof fn lemma_renderer_is_told_its_settings(
    out: Seq<char>,
    width: Seq<char>,
    height: Seq<char>,
    side: Seq<char>,
    quality: Seq<char>,
    zoom: Seq<char>,
    path: Seq<char>,
)
    ensures
        ({
            let args = render_request(out, width, height, side, quality, zoom, path);
            &&& args[0] == "pcb"@
            &&& args[1] == "render"@
            &&& gives(args, "--output"@, out)
            &&& gives(args, "--width"@, width)
            &&& gives(args, "--height"@, height)
            &&& gives(args, "--side"@, side)
            &&& gives(args, "--quality"@, quality)
            &&& gives(args, "--background"@, "opaque"@)
            &&& gives(args, "--zoom"@, zoom)
            &&& args.last() == path
        }),
{
    let args = render_request(out, width, height, side, quality, zoom, path);
    assert(args[2] == "--output"@ && args[3] == out);
    assert(args[4] == "--width"@ && args[5] == width);
    assert(args[6] == "--height"@ && args[7] == height);
    assert(args[8] == "--side"@ && args[9] == side);
    assert(args[10] == "--quality"@ && args[11] == quality);
    assert(args[12] == "--background"@ && args[13] == "opaque"@);
    assert(args[14] == "--zoom"@ && args[15] == zoom);
}

/// Boards, schematics and projects are told by the end of their names, and nothing else is
/// taken for one.
pub proof fn lemma_files_are_told_by_their_ending(ending: &str)
    ensures
        (kind_of(Some(ending)) == Some(ProjectFile::Board)) == (ending@ == "kicad_pcb"@),
        (kind_of(Some(ending)) == Some(ProjectFile::Schematic)) == (ending@ == "kicad_sch"@),
        (kind_of(Some(ending)) == Some(ProjectFile::Project)) == (ending@ == "kicad_pro"@),
        kind_of(None) is None,
{
    reveal_strlit("kicad_pcb");
    reveal_strlit("kicad_sch");
    reveal_strlit("kicad_pro");
    assert("kicad_pcb"@[7] == 'c' && "kicad_sch"@[7] == 'c' && "kicad_pro"@[7] == 'r');
    assert("kicad_pcb"@[6] == 'p' && "kicad_sch"@[6] == 's');
}

/// Lengths of a model are taken to the nearest step of the grid, which is 100 nanometres.
pub proof fn lemma_steps_are_nearest(nm: int)
    ensures
        -50 <= 100 * steps(nm) - nm <= 50,
        steps(100 * nm) == nm,
{
}

} // verus!
