//! What moving a label or a symbol changes, and what a power symbol says.

use crate::finding::is_in;
use crate::listing::stands;
use crate::placing::{place_end, place_text};
use crate::power::{
    other_properties, power_head, power_property, power_tail, power_text, shown_properties, turn_of, Power,
    HIDDEN,
};
use crate::sexpr::{end_of_block, lemma_close_bounds};
use crate::text::{find, lemma_find_is_first, matches_at};
use crate::units::plain;
use crate::wiring::{
    escaped, global_mark, label_place, local_mark, new_place, placed_at, placed_mark, with_label_moved,
    with_place,
};
use vstd::prelude::*;

verus! {

#[verifier::rlimit(40)]
proof fn lemma_label_is_there(text: Seq<char>, mark: Seq<char>, x: int, y: int, from: int)
    requires
        0 <= from,
        0 < mark.len(),
    ensures
        label_place(text, mark, x, y, from) matches Some(at) ==> from <= at && placed_at(text, at, x, y),
    decreases text.len() - from,
{
    lemma_find_is_first(text, mark, from);
    if let Some(start) = find(text, mark, from) {
        lemma_close_bounds(text, start, 0, false);
        let end = end_of_block(text, start);
        let part = text.take(end);
        lemma_find_is_first(part, "(at "@, start);
        match find(part, "(at "@, start) {
            Some(at) => {
                if placed_at(part, at, x, y) {
                    let m = placed_mark(x, y);
                    assert(part.subrange(at, at + m.len()) =~= text.subrange(at, at + m.len()));
                    assert(matches_at(text, m, at));
                } else {
                    lemma_label_is_there(text, mark, x, y, end);
                }
            },
            None => {
                lemma_label_is_there(text, mark, x, y, end);
            },
        }
    }
}

/// Whether a text is another in which one placement gives way to a new one, and nothing else
/// changes: it was at a place, and is at another now, turned as asked for.
pub open spec fn is_moved(
    old: Seq<char>,
    new: Seq<char>,
    from: (int, int),
    to: (int, int),
    turn: Option<int>,
    at: int,
    end: int,
) -> bool {
    &&& 0 <= at < end <= old.len()
    &&& placed_at(old, at, from.0, from.1)
    &&& placed_at(new, at, to.0, to.1)
    &&& new.take(at) == old.take(at)
    &&& new.skip(new.len() - (old.len() - end)) == old.skip(end)
    &&& turn matches Some(t) ==> stands(
        new,
        at,
        seq!['(', 'a', 't', ' '] + plain(to.0) + seq![' '] + plain(to.1) + seq![' '] + plain(t) + seq![
            ')',
        ],
    )
}

#[verifier::rlimit(40)]
proof fn lemma_place_is_changed(
    old: Seq<char>,
    at: int,
    from: (int, int),
    to: (int, int),
    turn: Option<int>,
) -> (end: int)
    requires
        placed_at(old, at, from.0, from.1),
        0 <= at,
        with_place(old, at, to.0, to.1, turn) is Some,
    ensures
        is_moved(old, with_place(old, at, to.0, to.1, turn)->0, from, to, turn, at, end),
{
    reveal_strlit("(at ");
    reveal_strlit(" ");
    reveal_strlit(")");
    lemma_find_is_first(old, ")"@, at);
    let close = find(old, ")"@, at)->0;
    let end = close + 1;
    let said = match turn {
        Some(t) => plain(t),
        None => crate::wiring::written_turn(old.subrange(at, close)),
    };
    let put = new_place(to.0, to.1, said);
    let new = with_place(old, at, to.0, to.1, turn)->0;
    assert(new =~= old.take(at) + put + old.skip(end));
    let mark = placed_mark(to.0, to.1);
    assert(put =~= mark + " "@ + said + ")"@);
    assert(new.subrange(at, at + mark.len()) =~= mark);
    assert(new[at + mark.len()] == ' ');
    assert(new.take(at) =~= old.take(at));
    assert(new.skip(new.len() - (old.len() - end)) =~= old.skip(end));
    if let Some(t) = turn {
        let whole = seq!['(', 'a', 't', ' '] + plain(to.0) + seq![' '] + plain(to.1) + seq![' '] + plain(
            t,
        ) + seq![')'];
        assert(whole =~= put);
        assert(new.subrange(at, at + whole.len()) =~= whole);
    }
    end
}

/// Moving a label changes one placement only: that of a label of the text at the place it
/// was said to be at. It is at the new place then, turned as asked for.
#[verifier::rlimit(40)]
pub proof fn lemma_label_is_moved(
    text: Seq<char>,
    label: Seq<char>,
    from: (int, int),
    to: (int, int),
    turn: Option<int>,
) -> (r: (int, int))
    requires
        with_label_moved(text, label, from, to, turn) is Some,
    ensures
        is_moved(text, with_label_moved(text, label, from, to, turn)->0, from, to, turn, r.0, r.1),
{
    reveal_strlit("(label \"");
    reveal_strlit("(global_label \"");
    let local = local_mark(escaped(label));
    let global = global_mark(escaped(label));
    lemma_label_is_there(text, local, from.0, from.1, 0);
    lemma_label_is_there(text, global, from.0, from.1, 0);
    let first = match label_place(text, local, from.0, from.1, 0) {
        None => None,
        Some(at) => with_place(text, at, to.0, to.1, turn),
    };
    if first is Some {
        let at = label_place(text, local, from.0, from.1, 0)->0;
        let end = lemma_place_is_changed(text, at, from, to, turn);
        (at, end)
    } else {
        let at = label_place(text, global, from.0, from.1, 0)->0;
        let end = lemma_place_is_changed(text, at, from, to, turn);
        (at, end)
    }
}

/// A placement gives both coordinates and, unless it is less than a thousandth of a degree,
/// the turn.
pub proof fn lemma_placement_is_written(x: int, y: int, turn: int)
    ensures
        -1_000 < turn < 1_000 ==> place_text(x, y, turn) == seq!['(', 'a', 't', ' '] + plain(x) + seq![
            ' ',
        ] + plain(y) + seq![')'],
        !(-1_000 < turn < 1_000) ==> place_text(x, y, turn) == seq!['(', 'a', 't', ' '] + plain(x)
            + seq![' '] + plain(y) + seq![' '] + plain(turn) + seq![')'],
{
    reveal_strlit("(at ");
    reveal_strlit(" ");
    reveal_strlit(")");
    if -1_000 < turn < 1_000 {
        assert(place_text(x, y, turn) =~= seq!['(', 'a', 't', ' '] + plain(x) + seq![' '] + plain(y)
            + seq![')']);
    } else {
        assert(place_text(x, y, turn) =~= seq!['(', 'a', 't', ' '] + plain(x) + seq![' '] + plain(y)
            + seq![' '] + plain(turn) + seq![')']);
    }
}

/// Moving a symbol changes the first placement in its block only, to the new place, and the
/// turn if another is given.
pub proof fn lemma_symbol_is_moved(block: Seq<char>, x: int, y: int, turn: int)
    ensures
        ({
            let new = crate::placing::placed_at(block, x, y, Some(turn));
            match find(block, "(at "@, 0) {
                None => new == block,
                Some(at) => new == block.take(at) + place_text(x, y, turn) + block.skip(
                    place_end(block, at),
                ),
            }
        }),
{
    if let Some(at) = find(block, "(at "@, 0) {
        let new = crate::placing::placed_at(block, x, y, Some(turn));
        assert(new =~= block.take(at) + place_text(x, y, turn) + block.skip(place_end(block, at)));
    }
}

/// A power symbol is of its net, and stands where it was put.
#[verifier::rlimit(40)]
pub proof fn lemma_power_symbol_stands(p: Power, reference: Seq<char>, root: Seq<char>)
    ensures
        stands(
            power_text(p, reference, root),
            0,
            "\n\t(symbol\n\t\t(lib_id \"power:"@ + p.net@ + "\")\n\t\t(at "@ + plain(p.x as int) + " "@
                + plain(p.y as int) + " "@ + plain(turn_of(p)),
        ),
{
    let head = "\n\t(symbol\n\t\t(lib_id \"power:"@ + p.net@ + "\")\n\t\t(at "@ + plain(p.x as int) + " "@
        + plain(p.y as int) + " "@ + plain(turn_of(p));
    let tail = ")\n\t\t(unit 1)\n\t\t(body_style 1)\n\t\t(exclude_from_sim no)\n\t\t(in_bom yes)\n\t\t(on_board yes)\n\t\t(in_pos_files yes)\n\t\t(dnp no)\n\t\t(fields_autoplaced yes)\n\t\t(uuid \""@;
    let whole = power_head(p.net@, p.x as int, p.y as int, turn_of(p), p.stamp@);
    assert(whole =~= head + (tail + p.stamp@ + "\")\n"@));
    let rest = shown_properties(p, reference) + other_properties(p) + power_tail(
        p.pin_stamp@,
        p.project@,
        root,
        reference,
    );
    let text = power_text(p, reference, root);
    assert(text =~= whole + rest);
    assert(text.subrange(0, head.len() as int) =~= head);
}

/// A power symbol says its reference and, as its value, its net.
#[verifier::rlimit(40)]
pub proof fn lemma_power_symbol_is_named(p: Power, reference: Seq<char>, root: Seq<char>)
    ensures
        is_in(
            power_text(p, reference, root),
            power_property("Reference"@, reference, p.x as int, p.y + 3_810_000, HIDDEN@),
        ),
        is_in(
            power_text(p, reference, root),
            power_property("Value"@, p.net@, p.x as int, p.y - 3_556_000, ""@),
        ),
{
    let head = power_head(p.net@, p.x as int, p.y as int, turn_of(p), p.stamp@);
    let a = power_property("Reference"@, reference, p.x as int, p.y + 3_810_000, HIDDEN@);
    let b = power_property("Value"@, p.net@, p.x as int, p.y - 3_556_000, ""@);
    let rest = other_properties(p) + power_tail(p.pin_stamp@, p.project@, root, reference);
    let text = power_text(p, reference, root);
    assert(text =~= head + a + (b + rest));
    assert(text =~= (head + a) + b + rest);
}

/// A property gives its name and its value, and where it is shown.
#[verifier::rlimit(40)]
pub proof fn lemma_property_says_its_value(
    name: Seq<char>,
    value: Seq<char>,
    x: int,
    y: int,
    hidden: Seq<char>,
)
    ensures
        stands(
            power_property(name, value, x, y, hidden),
            0,
            "\t\t(property \""@ + name + "\" \""@ + escaped(value) + "\"\n\t\t\t(at "@ + plain(x) + " "@
                + plain(y) + " 0)\n"@,
        ),
{
    let head = "\t\t(property \""@ + name + "\" \""@ + escaped(value) + "\"\n\t\t\t(at "@ + plain(x) + " "@
        + plain(y) + " 0)\n"@;
    let tail = "\t\t\t(show_name no)\n\t\t\t(do_not_autoplace no)\n\t\t\t(effects (font (size 1.27 1.27)))\n\t\t)\n"@;
    let text = power_property(name, value, x, y, hidden);
    assert(text =~= head + (hidden + tail));
    assert(text.subrange(0, head.len() as int) =~= head);
}

} // verus!
