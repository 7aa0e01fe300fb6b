//! S-expressions as trees: atoms and lists.

use crate::fields::{is_space, space};
use crate::text::{same_str, to_chars, to_text};
use vstd::prelude::*;
use vstd::slice::slice_subrange;

verus! {

/// An atom, or a list of nodes.
pub enum Sexp {
    Atom(String),
    List(Vec<Sexp>),
}

/// A node as plain text and sequences.
pub enum Tree {
    Atom(Seq<char>),
    List(Seq<Tree>),
}

/// What a node stands for.
pub open spec fn tree(node: Sexp) -> Tree
    decreases node,
{
    match node {
        Sexp::Atom(text) => Tree::Atom(text@),
        Sexp::List(items) => Tree::List(trees(items@)),
    }
}

/// What a list of nodes stands for.
pub open spec fn trees(items: Seq<Sexp>) -> Seq<Tree>
    decreases items,
{
    if items.len() == 0 {
        Seq::empty()
    } else {
        trees(items.drop_last()).push(tree(items.last()))
    }
}

/// Each tree of a list stands for the node at its place.
pub proof fn lemma_trees(items: Seq<Sexp>)
    ensures
        trees(items).len() == items.len(),
        forall|i: int| 0 <= i < items.len() ==> #[trigger] trees(items)[i] == tree(items[i]),
    decreases items.len(),
{
    if items.len() > 0 {
        lemma_trees(items.drop_last());
        assert forall|i: int| 0 <= i < items.len() implies #[trigger] trees(items)[i] == tree(
            items[i],
        ) by {
            if i < items.len() - 1 {
                assert(trees(items.drop_last())[i] == tree(items.drop_last()[i]));
            }
        }
    }
}

proof fn lemma_trees_push(items: Seq<Sexp>, node: Sexp)
    ensures
        trees(items.push(node)) == trees(items).push(tree(node)),
{
    assert(items.push(node).drop_last() =~= items);
}

/// The text of an atom.
pub open spec fn atom(node: Tree) -> Option<Seq<char>> {
    match node {
        Tree::Atom(text) => Some(text),
        Tree::List(_) => None,
    }
}

/// The node at a place in a list.
pub open spec fn item(node: Tree, i: int) -> Option<Tree> {
    match node {
        Tree::Atom(_) => None,
        Tree::List(items) => if 0 <= i < items.len() {
            Some(items[i])
        } else {
            None
        },
    }
}

/// The atom at a place in a list.
pub open spec fn atom_item(node: Tree, i: int) -> Option<Seq<char>> {
    match item(node, i) {
        Some(n) => atom(n),
        None => None,
    }
}

/// Whether a node is a list that opens with the given atom.
pub open spec fn is_headed(node: Tree, name: Seq<char>) -> bool {
    atom_item(node, 0) == Some(name)
}

/// The first node from `from` on that is a list opening with the given atom.
pub open spec fn headed_from(items: Seq<Tree>, name: Seq<char>, from: int) -> Option<Tree>
    decreases items.len() - from,
{
    if from < 0 || from >= items.len() {
        None
    } else if is_headed(items[from], name) {
        Some(items[from])
    } else {
        headed_from(items, name, from + 1)
    }
}

/// The first list in a list that opens with the given atom.
pub open spec fn child(node: Tree, name: Seq<char>) -> Option<Tree> {
    match node {
        Tree::Atom(_) => None,
        Tree::List(items) => headed_from(items, name, 0),
    }
}

/// The atom that follows the name in the first list of that name.
pub open spec fn field(node: Tree, name: Seq<char>) -> Option<Seq<char>> {
    match child(node, name) {
        Some(n) => atom_item(n, 1),
        None => None,
    }
}

pub open spec fn text_of(value: Option<&String>) -> Option<Seq<char>> {
    match value {
        Some(t) => Some(t@),
        None => None,
    }
}

pub open spec fn tree_of(value: Option<&Sexp>) -> Option<Tree> {
    match value {
        Some(n) => Some(tree(*n)),
        None => None,
    }
}

impl Sexp {
    /// The text of an atom.
    pub fn as_atom(&self) -> (text: Option<&String>)
        ensures
            text_of(text) == atom(tree(*self)),
    {
        match self {
            Sexp::Atom(text) => Some(text),
            Sexp::List(_) => None,
        }
    }

    /// The nodes of a list.
    pub fn as_list(&self) -> (items: Option<&Vec<Sexp>>)
        ensures
            match tree(*self) {
                Tree::Atom(_) => items is None,
                Tree::List(list) => items is Some && trees(items->0@) == list,
            },
    {
        match self {
            Sexp::Atom(_) => None,
            Sexp::List(items) => Some(items),
        }
    }

    /// The node at a place in a list.
    pub fn nth(&self, i: usize) -> (node: Option<&Sexp>)
        ensures
            tree_of(node) == item(tree(*self), i as int),
    {
        match self {
            Sexp::Atom(_) => None,
            Sexp::List(items) => {
                proof {
                    lemma_trees(items@);
                }
                if i < items.len() {
                    Some(&items[i])
                } else {
                    None
                }
            },
        }
    }

    /// The atom at a place in a list.
    pub fn atom_at(&self, i: usize) -> (text: Option<&String>)
        ensures
            text_of(text) == atom_item(tree(*self), i as int),
    {
        match self.nth(i) {
            Some(node) => node.as_atom(),
            None => None,
        }
    }

    /// Whether this is a list that opens with the given atom.
    pub fn headed(&self, name: &str) -> (yes: bool)
        ensures
            yes == is_headed(tree(*self), name@),
    {
        match self.atom_at(0) {
            Some(text) => same_str(text.as_str(), name),
            None => false,
        }
    }

    /// The first list in this list that opens with the given atom.
    pub fn get_child(&self, name: &str) -> (node: Option<&Sexp>)
        ensures
            tree_of(node) == child(tree(*self), name@),
    {
        match self {
            Sexp::Atom(_) => None,
            Sexp::List(items) => {
                let ghost list = trees(items@);
                proof {
                    lemma_trees(items@);
                }
                let mut i: usize = 0;
                while i < items.len()
                    invariant
                        i <= items.len(),
                        list == trees(items@),
                        list.len() == items@.len(),
                        tree(*self) == Tree::List(list),
                        forall|j: int| 0 <= j < items@.len() ==> #[trigger] list[j] == tree(items@[j]),
                        headed_from(list, name@, 0) == headed_from(list, name@, i as int),
                    decreases items.len() - i,
                {
                    proof {
                        assert(list[i as int] == tree(items@[i as int]));
                    }
                    if items[i].headed(name) {
                        return Some(&items[i]);
                    }
                    i += 1;
                }
                None
            },
        }
    }

    /// The atom that follows the name in the first list of that name.
    pub fn get_field(&self, name: &str) -> (text: Option<&String>)
        ensures
            text_of(text) == field(tree(*self), name@),
    {
        match self.get_child(name) {
            Some(node) => node.atom_at(1),
            None => None,
        }
    }
}

/// Whether a character can stand in a bare atom.
pub open spec fn is_bare(c: char) -> bool {
    !is_space(c) && c != '(' && c != ')' && c != '"'
}

/// Where the bare atom that reaches to `at` ends.
pub open spec fn bare_end(text: Seq<char>, at: int) -> int
    decreases text.len() - at,
{
    if at < 0 || at >= text.len() || !is_bare(text[at]) {
        at
    } else {
        bare_end(text, at + 1)
    }
}

/// The rest of a quoted atom, with `known` read before `at`, and where the text
/// goes on. A backslash lets the character after it stand for itself.
pub open spec fn quoted_rest(text: Seq<char>, at: int, known: Seq<char>) -> Option<
    (Seq<char>, int),
>
    decreases text.len() + 1 - at,
{
    if at < 0 || at >= text.len() {
        None
    } else if text[at] == '"' {
        Some((known, at + 1))
    } else if text[at] == '\\' {
        if at + 1 < text.len() {
            quoted_rest(text, at + 2, known.push(text[at + 1]))
        } else {
            None
        }
    } else {
        quoted_rest(text, at + 1, known.push(text[at]))
    }
}

proof fn lemma_bare_end(text: Seq<char>, at: int)
    requires
        0 <= at <= text.len(),
    ensures
        at <= bare_end(text, at) <= text.len(),
    decreases text.len() - at,
{
    if at < text.len() && is_bare(text[at]) {
        lemma_bare_end(text, at + 1);
    }
}

proof fn lemma_quoted_rest(text: Seq<char>, at: int, known: Seq<char>)
    requires
        0 <= at,
    ensures
        quoted_rest(text, at, known) matches Some(r) ==> at < r.1 <= text.len(),
    decreases text.len() + 1 - at,
{
    if at < text.len() && text[at] != '"' {
        if text[at] == '\\' {
            if at + 1 < text.len() {
                lemma_quoted_rest(text, at + 2, known.push(text[at + 1]));
            }
        } else {
            lemma_quoted_rest(text, at + 1, known.push(text[at]));
        }
    }
}

/// The open lists with one more node in the innermost.
pub open spec fn with_node(open_lists: Seq<Seq<Tree>>, node: Tree) -> Seq<Seq<Tree>> {
    open_lists.drop_last().push(open_lists.last().push(node))
}

/// The nodes of a text, read from `at` with lists open, the outermost first. None
/// where brackets do not pair or a quoted atom does not end.
pub open spec fn nodes_from(text: Seq<char>, at: int, open_lists: Seq<Seq<Tree>>) -> Option<
    Seq<Tree>,
>
    decreases text.len() - at,
    when 0 <= at && open_lists.len() > 0
    via nodes_from_decreases
{
    if at >= text.len() {
        if open_lists.len() == 1 {
            Some(open_lists[0])
        } else {
            None
        }
    } else if is_space(text[at]) {
        nodes_from(text, at + 1, open_lists)
    } else if text[at] == '(' {
        nodes_from(text, at + 1, open_lists.push(Seq::empty()))
    } else if text[at] == ')' {
        if open_lists.len() == 1 {
            None
        } else {
            nodes_from(
                text,
                at + 1,
                with_node(open_lists.drop_last(), Tree::List(open_lists.last())),
            )
        }
    } else if text[at] == '"' {
        match quoted_rest(text, at + 1, Seq::empty()) {
            Some(r) => nodes_from(text, r.1, with_node(open_lists, Tree::Atom(r.0))),
            None => None,
        }
    } else {
        let end = bare_end(text, at);
        nodes_from(text, end, with_node(open_lists, Tree::Atom(text.subrange(at, end))))
    }
}

#[via_fn]
proof fn nodes_from_decreases(text: Seq<char>, at: int, open_lists: Seq<Seq<Tree>>) {
    if at < text.len() {
        lemma_quoted_rest(text, at + 1, Seq::empty());
        lemma_bare_end(text, at + 1);
        assert(is_bare(text[at]) ==> bare_end(text, at) == bare_end(text, at + 1));
    }
}

/// The nodes of a text.
pub open spec fn nodes(text: Seq<char>) -> Option<Seq<Tree>> {
    nodes_from(text, 0, seq![Seq::<Tree>::empty()])
}

fn find_bare_end(text: &[char], at: usize) -> (end: usize)
    requires
        at <= text@.len(),
    ensures
        end == bare_end(text@, at as int),
        at <= end <= text@.len(),
{
    let mut end: usize = at;
    while end < text.len() && !space(text[end]) && text[end] != '(' && text[end] != ')' && text[end]
        != '"'
        invariant
            at <= end <= text@.len(),
            bare_end(text@, at as int) == bare_end(text@, end as int),
        decreases text@.len() - end,
    {
        end += 1;
    }
    end
}

pub open spec fn read_atom(value: Option<(String, usize)>) -> Option<(Seq<char>, int)> {
    match value {
        Some(r) => Some((r.0@, r.1 as int)),
        None => None,
    }
}

fn read_quoted(text: &[char], from: usize) -> (value: Option<(String, usize)>)
    requires
        from <= text@.len(),
    ensures
        read_atom(value) == quoted_rest(text@, from as int, Seq::empty()),
{
    let mut known: Vec<char> = Vec::new();
    let mut at: usize = from;
    while at < text.len()
        invariant
            at <= text@.len(),
            quoted_rest(text@, from as int, Seq::empty()) == quoted_rest(text@, at as int, known@),
        decreases text@.len() - at,
    {
        if text[at] == '"' {
            return Some((to_text(known.as_slice()), at + 1));
        }
        if text[at] == '\\' {
            if text.len() - at < 2 {
                return None;
            }
            known.push(text[at + 1]);
            at += 2;
        } else {
            known.push(text[at]);
            at += 1;
        }
    }
    None
}

spec fn open_trees(open_lists: Seq<Vec<Sexp>>) -> Seq<Seq<Tree>> {
    open_lists.map_values(|l: Vec<Sexp>| trees(l@))
}

fn put_node(open_lists: &mut Vec<Vec<Sexp>>, node: Sexp)
    requires
        old(open_lists)@.len() > 0,
    ensures
        open_trees(final(open_lists)@) == with_node(open_trees(old(open_lists)@), tree(node)),
        final(open_lists)@.len() == old(open_lists)@.len(),
{
    let ghost start = open_lists@;
    match open_lists.pop() {
        Some(mut inner) => {
            proof {
                lemma_trees_push(inner@, node);
            }
            inner.push(node);
            open_lists.push(inner);
            proof {
                assert(open_trees(open_lists@) =~= with_node(open_trees(start), tree(node)));
            }
        },
        None => {},
    }
}

pub open spec fn trees_of(value: Option<Vec<Sexp>>) -> Option<Seq<Tree>> {
    match value {
        Some(list) => Some(trees(list@)),
        None => None,
    }
}

/// Reads the nodes of a text; none where brackets do not pair or a quoted atom does
/// not end.
pub fn parse_sexp(content: &str) -> (found: Option<Vec<Sexp>>)
    ensures
        trees_of(found) == nodes(content@),
{
    let text = to_chars(content);
    let mut open_lists: Vec<Vec<Sexp>> = Vec::new();
    open_lists.push(Vec::new());
    let mut at: usize = 0;
    proof {
        assert(open_trees(open_lists@) =~= seq![Seq::<Tree>::empty()]);
    }
    while at < text.len()
        invariant
            text@ == content@,
            at <= text@.len(),
            open_lists@.len() > 0,
            nodes(content@) == nodes_from(text@, at as int, open_trees(open_lists@)),
        decreases text@.len() - at,
    {
        let c: char = text[at];
        let ghost start = open_lists@;
        proof {
            lemma_quoted_rest(text@, at + 1, Seq::empty());
        }
        if space(c) {
            at += 1;
        } else if c == '(' {
            open_lists.push(Vec::new());
            proof {
                assert(open_trees(open_lists@) =~= open_trees(start).push(Seq::empty()));
            }
            at += 1;
        } else if c == ')' {
            if open_lists.len() == 1 {
                return None;
            }
            match open_lists.pop() {
                Some(inner) => {
                    proof {
                        assert(open_trees(open_lists@) =~= open_trees(start).drop_last());
                        assert(open_trees(start).last() == trees(inner@));
                    }
                    put_node(&mut open_lists, Sexp::List(inner));
                },
                None => {},
            }
            at += 1;
        } else if c == '"' {
            match read_quoted(text.as_slice(), at + 1) {
                Some(r) => {
                    put_node(&mut open_lists, Sexp::Atom(r.0));
                    at = r.1;
                },
                None => {
                    return None;
                },
            }
        } else {
            let end: usize = find_bare_end(text.as_slice(), at);
            proof {
                lemma_bare_end(text@, at + 1);
                assert(is_bare(text@[at as int]));
                assert(end == bare_end(text@, at + 1));
            }
            let bare = to_text(slice_subrange(text.as_slice(), at, end));
            put_node(&mut open_lists, Sexp::Atom(bare));
            at = end;
        }
    }
    if open_lists.len() != 1 {
        return None;
    }
    proof {
        assert(open_trees(open_lists@)[0] == trees(open_lists@[0]@));
    }
    open_lists.pop()
}

} // verus!
