//! Dictionaries: from a run of strokes to a translation.

use crate::engine::{Translation, TranslationView};
use crate::steno::{parse_steno, steno_id};
use crate::text::{chars_of, find, first_index, lines, rows, split_lines, string_of};
use std::collections::HashMap;
use vstd::prelude::*;
use vstd::string::*;

verus! {

broadcast use vstd::std_specs::hash::group_hash_axioms;

/// Something that translates the start of a run of strokes.
pub trait Dictionary {
    /// The dictionary's answer for a run of strokes.
    spec fn entry(&self, strokes: Seq<u32>) -> Option<TranslationView>;

    /// An answer covers at least one stroke and no more strokes than were
    /// given, and is not yet marked as silent.
    proof fn entry_in_range(&self, strokes: Seq<u32>)
        ensures
            self.entry(strokes) matches Some(t) ==> 1 <= t.consumed <= strokes.len()
                && !t.non_undoable,
    ;

    /// Translates the start of `strokes`.
    fn get(&self, strokes: &[u32]) -> (r: Option<Translation>)
        ensures
            r.deep_view() == self.entry(strokes@),
    ;
}

/// A dictionary of one of the kinds that the engine knows.
pub enum Dict {
    Tree(TreeDict),
    Numbers(NumbersDict),
}

impl Dictionary for Dict {
    open spec fn entry(&self, strokes: Seq<u32>) -> Option<TranslationView> {
        match self {
            Dict::Tree(d) => d.entry(strokes),
            Dict::Numbers(d) => d.entry(strokes),
        }
    }

    proof fn entry_in_range(&self, strokes: Seq<u32>) {
        match self {
            Dict::Tree(d) => d.entry_in_range(strokes),
            Dict::Numbers(d) => d.entry_in_range(strokes),
        }
    }

    fn get(&self, strokes: &[u32]) -> (r: Option<Translation>) {
        match self {
            Dict::Tree(d) => d.get(strokes),
            Dict::Numbers(d) => d.get(strokes),
        }
    }
}

/// The number key `#`.
pub const KEY_NUMBER: u32 = 0x4;

/// The left-hand `S` key, digit 1.
pub const KEY_S: u32 = 0x8;

/// The left-hand `T` key, digit 2.
pub const KEY_T: u32 = 0x10;

/// The left-hand `P` key, digit 3.
pub const KEY_P: u32 = 0x40;

/// The `H` key, digit 4.
pub const KEY_H: u32 = 0x100;

/// The `A` key, digit 5.
pub const KEY_A: u32 = 0x400;

/// The `O` key, digit 0.
pub const KEY_O: u32 = 0x800;

/// The right-hand `f` key, digit 6.
pub const KEY_RF: u32 = 0x8000;

/// The right-hand `p` key, digit 7.
pub const KEY_RP: u32 = 0x20000;

/// The right-hand `l` key, digit 8.
pub const KEY_RL: u32 = 0x80000;

/// The right-hand `t` key, digit 9.
pub const KEY_RT: u32 = 0x200000;

/// The right-hand `d` key, which doubles the last digit.
pub const KEY_RD: u32 = 0x800000;

/// The right-hand `z` key, which appends two zeros.
pub const KEY_RZ: u32 = 0x1000000;

/// The keys that a number chord may hold.
pub const NUMBER_KEYS: u32 = KEY_NUMBER | KEY_S | KEY_T | KEY_P | KEY_H | KEY_A | KEY_O | KEY_RF
    | KEY_RP | KEY_RL | KEY_RT | KEY_RD | KEY_RZ;

/// The keys that stand for a digit, with their digits, in the order in
/// which the digits are written.
pub open spec fn digit_keys() -> Seq<(u32, char)> {
    seq![
        (KEY_S, '1'),
        (KEY_T, '2'),
        (KEY_P, '3'),
        (KEY_H, '4'),
        (KEY_A, '5'),
        (KEY_O, '0'),
        (KEY_RF, '6'),
        (KEY_RP, '7'),
        (KEY_RL, '8'),
        (KEY_RT, '9'),
    ]
}

/// The digits of the first `n` digit keys that the chord holds.
pub open spec fn digits_below(chord: u32, n: nat) -> Seq<char>
    decreases n,
{
    if n == 0 {
        Seq::empty()
    } else if chord & digit_keys()[n - 1].0 != 0 {
        digits_below(chord, (n - 1) as nat).push(digit_keys()[n - 1].1)
    } else {
        digits_below(chord, (n - 1) as nat)
    }
}

/// The digits of a number chord, in the order of the keys.
pub open spec fn chord_digits(chord: u32) -> Seq<char> {
    digits_below(chord, digit_keys().len())
}

/// The raw translation of a number chord: its digits as glue. With `d` the
/// last character so far is doubled, with `z` two zeros follow.
pub open spec fn number_text(chord: u32) -> Seq<char> {
    let plain = seq!['{', '&'] + chord_digits(chord);
    let doubled = if chord & KEY_RD != 0 {
        plain.push(plain.last())
    } else {
        plain
    };
    let padded = if chord & KEY_RZ != 0 {
        doubled + seq!['0', '0']
    } else {
        doubled
    };
    padded.push('}')
}

/// Whether a chord is a number chord: it holds `#` and no key that stands
/// for neither a digit nor a modifier of the number.
pub open spec fn is_number_chord(chord: u32) -> bool {
    chord & KEY_NUMBER != 0 && chord & !NUMBER_KEYS == 0
}

/// Translates chords made with the number key into numbers.
pub struct NumbersDict {}

impl NumbersDict {
    pub fn new() -> (d: NumbersDict) {
        NumbersDict {  }
    }
}

/// Digit key `k` with its digit.
fn digit_key(k: usize) -> (pair: (u32, char))
    requires
        k < 10,
    ensures
        digit_keys().len() == 10,
        pair == digit_keys()[k as int],
{
    match k {
        0 => (KEY_S, '1'),
        1 => (KEY_T, '2'),
        2 => (KEY_P, '3'),
        3 => (KEY_H, '4'),
        4 => (KEY_A, '5'),
        5 => (KEY_O, '0'),
        6 => (KEY_RF, '6'),
        7 => (KEY_RP, '7'),
        8 => (KEY_RL, '8'),
        _ => (KEY_RT, '9'),
    }
}

impl Dictionary for NumbersDict {
    open spec fn entry(&self, strokes: Seq<u32>) -> Option<TranslationView> {
        if strokes.len() > 0 && is_number_chord(strokes[0]) {
            Some(
                TranslationView {
                    raw: number_text(strokes[0]),
                    consumed: 1,
                    complete: false,
                    non_undoable: false,
                },
            )
        } else {
            None
        }
    }

    proof fn entry_in_range(&self, strokes: Seq<u32>) {
    }

    fn get(&self, strokes: &[u32]) -> (r: Option<Translation>) {
        if strokes.len() == 0 {
            return None;
        }
        let chord = strokes[0];
        if chord & KEY_NUMBER == 0 || chord & !NUMBER_KEYS != 0 {
            return None;
        }
        let mut number: Vec<char> = Vec::new();
        number.push('{');
        number.push('&');
        let mut k: usize = 0;
        while k < 10
            invariant
                k <= 10,
                digit_keys().len() == 10,
                number@ == seq!['{', '&'] + digits_below(chord, k as nat),
            decreases 10 - k,
        {
            let (key, digit) = digit_key(k);
            if chord & key != 0 {
                number.push(digit);
            }
            k += 1;
        }
        if chord & KEY_RD != 0 {
            let last = number[number.len() - 1];
            number.push(last);
        }
        if chord & KEY_RZ != 0 {
            number.push('0');
            number.push('0');
        }
        number.push('}');
        assert(number@ =~= number_text(chord));
        let number = string_of(&number, 0, number.len());
        assert(number@ =~= number_text(chord));
        Some(Translation::new(number, 1))
    }
}

/// What a tree dictionary holds: each stroke sequence that leads to a node of
/// the tree, with the translation at that node if it has one. The empty
/// sequence leads to the root.
pub type Entries = Map<Seq<u32>, Option<Seq<char>>>;

/// How far the tree can be walked along `strokes` from depth `d` on.
pub open spec fn depth_reached(m: Entries, strokes: Seq<u32>, d: nat) -> nat
    decreases strokes.len() - d,
{
    if d < strokes.len() && m.dom().contains(strokes.take(d as int + 1)) {
        depth_reached(m, strokes, d + 1)
    } else {
        d
    }
}

/// The greatest depth from 1 to `d` at which the walk along `strokes` passes a
/// translation.
pub open spec fn deepest_entry(m: Entries, strokes: Seq<u32>, d: nat) -> Option<nat>
    decreases d,
{
    if d == 0 {
        None
    } else if m.dom().contains(strokes.take(d as int)) && m[strokes.take(d as int)] is Some {
        Some(d)
    } else {
        deepest_entry(m, strokes, (d - 1) as nat)
    }
}

/// Whether no stroke leads on from `path`.
pub open spec fn is_leaf(m: Entries, path: Seq<u32>) -> bool {
    forall|k: u32| !m.dom().contains(#[trigger] path.push(k))
}

/// The answer of a tree for a run of strokes: the deepest translation on the
/// walk along the strokes, marked complete where the walk ends in a leaf.
pub open spec fn tree_entry(m: Entries, strokes: Seq<u32>) -> Option<TranslationView> {
    let d = depth_reached(m, strokes, 0);
    match deepest_entry(m, strokes, d) {
        Some(j) => Some(
            TranslationView {
                raw: m[strokes.take(j as int)].unwrap(),
                consumed: j,
                complete: is_leaf(m, strokes.take(d as int)),
                non_undoable: false,
            },
        ),
        None => None,
    }
}

/// A found translation lies between depth 1 and the depth asked for.
pub proof fn lemma_deepest_entry(m: Entries, strokes: Seq<u32>, d: nat)
    ensures
        deepest_entry(m, strokes, d) matches Some(j) ==> 1 <= j <= d && m.dom().contains(
            strokes.take(j as int),
        ) && m[strokes.take(j as int)] is Some,
    decreases d,
{
    if d > 0 {
        lemma_deepest_entry(m, strokes, (d - 1) as nat);
    }
}

/// The walk ends within the strokes.
pub proof fn lemma_depth_reached(m: Entries, strokes: Seq<u32>, d: nat)
    requires
        d <= strokes.len(),
    ensures
        d <= depth_reached(m, strokes, d) <= strokes.len(),
    decreases strokes.len() - d,
{
    if d < strokes.len() && m.dom().contains(strokes.take(d as int + 1)) {
        lemma_depth_reached(m, strokes, d + 1);
    }
}

/// A walk that ends in a leaf ends at the same depth when a stroke is added
/// to the run.
pub proof fn lemma_depth_reached_stable(m: Entries, strokes: Seq<u32>, x: u32, k: nat)
    requires
        k <= strokes.len(),
        is_leaf(m, strokes.take(depth_reached(m, strokes, k) as int)),
    ensures
        depth_reached(m, strokes.push(x), k) == depth_reached(m, strokes, k),
    decreases strokes.len() - k,
{
    let longer = strokes.push(x);
    if k < strokes.len() {
        assert(longer.take(k as int + 1) =~= strokes.take(k as int + 1));
        if m.dom().contains(strokes.take(k as int + 1)) {
            lemma_depth_reached_stable(m, strokes, x, k + 1);
        }
    } else {
        assert(longer.take(k as int + 1) =~= strokes.take(k as int).push(x));
    }
}

/// The translations that a walk passes do not change when a stroke is added
/// to the run.
pub proof fn lemma_deepest_entry_stable(m: Entries, strokes: Seq<u32>, x: u32, d: nat)
    requires
        d <= strokes.len(),
    ensures
        deepest_entry(m, strokes.push(x), d) == deepest_entry(m, strokes, d),
    decreases d,
{
    if d > 0 {
        assert(strokes.push(x).take(d as int) =~= strokes.take(d as int));
        lemma_deepest_entry_stable(m, strokes, x, (d - 1) as nat);
    }
}

/// A complete answer of a tree stays the answer when a stroke is added to
/// the run.
pub proof fn lemma_tree_entry_stable(m: Entries, strokes: Seq<u32>, x: u32)
    requires
        tree_entry(m, strokes) matches Some(t) && t.complete,
    ensures
        tree_entry(m, strokes.push(x)) == tree_entry(m, strokes),
{
    let d = depth_reached(m, strokes, 0);
    lemma_depth_reached(m, strokes, 0);
    lemma_depth_reached_stable(m, strokes, x, 0);
    lemma_deepest_entry_stable(m, strokes, x, d);
    lemma_deepest_entry(m, strokes, d);
    let j = deepest_entry(m, strokes, d).unwrap();
    assert(strokes.push(x).take(j as int) =~= strokes.take(j as int));
    assert(strokes.push(x).take(d as int) =~= strokes.take(d as int));
}

/// A node of the tree: its translation, and the nodes that a further stroke
/// leads to, by their place in the tree's list of nodes.
struct Node {
    translation: Option<String>,
    children: HashMap<u32, usize>,
}

/// The mathematical value of a node.
pub struct NodeView {
    pub translation: Option<Seq<char>>,
    pub children: Map<u32, usize>,
}

impl DeepView for Node {
    type V = NodeView;

    closed spec fn deep_view(&self) -> NodeView {
        NodeView { translation: self.translation.deep_view(), children: self.children@ }
    }
}

impl Node {
    /// A node without children; an empty text is no translation.
    fn new(t: &str) -> (node: Node)
        ensures
            node.deep_view() == (NodeView {
                translation: if t@.len() == 0 {
                    None
                } else {
                    Some(t@)
                },
                children: Map::empty(),
            }),
    {
        Node {
            translation: if t.unicode_len() > 0 {
                Some(String::from_str(t))
            } else {
                None
            },
            children: HashMap::new(),
        }
    }

    /// The node that stroke `k` leads to.
    fn get(&self, k: u32) -> (child: Option<usize>)
        ensures
            child == if self.deep_view().children.contains_key(k) {
                Some(self.deep_view().children[k])
            } else {
                None
            },
    {
        match self.children.get(&k) {
            Some(child) => Some(*child),
            None => None,
        }
    }
}

/// The node that `path` leads to from the root, if the tree has it.
pub open spec fn node_at(nodes: Seq<NodeView>, path: Seq<u32>) -> Option<int>
    decreases path.len(),
{
    if path.len() == 0 {
        Some(0)
    } else {
        match node_at(nodes, path.drop_last()) {
            Some(parent) => if 0 <= parent < nodes.len() && nodes[parent].children.contains_key(
                path.last(),
            ) {
                Some(nodes[parent].children[path.last()] as int)
            } else {
                None
            },
            None => None,
        }
    }
}

/// Whether every stroke leads to a node that is in the list.
pub open spec fn links_in_range(nodes: Seq<NodeView>) -> bool {
    &&& nodes.len() > 0
    &&& forall|i: int, k: u32|
        0 <= i < nodes.len() && #[trigger] nodes[i].children.contains_key(k)
            ==> nodes[i].children[k] < nodes.len()
}

/// What the tree made of `nodes` holds.
pub open spec fn entries_of(nodes: Seq<NodeView>) -> Entries {
    Map::new(
        |path: Seq<u32>| node_at(nodes, path) is Some,
        |path: Seq<u32>| nodes[node_at(nodes, path).unwrap()].translation,
    )
}

/// A path that leads to a node leads to one in the list.
pub proof fn lemma_node_in_range(nodes: Seq<NodeView>, path: Seq<u32>)
    requires
        links_in_range(nodes),
    ensures
        node_at(nodes, path) matches Some(i) ==> 0 <= i < nodes.len(),
    decreases path.len(),
{
    if path.len() > 0 {
        lemma_node_in_range(nodes, path.drop_last());
    }
}

/// A dictionary held as a tree of strokes.
pub struct TreeDict {
    nodes: Vec<Node>,
}

impl View for TreeDict {
    type V = Entries;

    closed spec fn view(&self) -> Entries {
        entries_of(self.nodes.deep_view())
    }
}

impl TreeDict {
    #[verifier::type_invariant]
    spec fn well_formed(&self) -> bool {
        links_in_range(self.nodes.deep_view())
    }
}

impl Dictionary for TreeDict {
    open spec fn entry(&self, strokes: Seq<u32>) -> Option<TranslationView> {
        tree_entry(self@, strokes)
    }

    proof fn entry_in_range(&self, strokes: Seq<u32>) {
        let d = depth_reached(self@, strokes, 0);
        lemma_depth_reached(self@, strokes, 0);
        lemma_deepest_entry(self@, strokes, d);
    }

    fn get(&self, strokes: &[u32]) -> (r: Option<Translation>) {
        proof {
            use_type_invariant(self);
        }
        let ghost nodes = self.nodes.deep_view();
        let ghost m = self@;
        let ghost s = strokes@;
        let mut cur: usize = 0;
        let mut depth: usize = 0;
        let mut found: Option<(usize, usize)> = None;
        let mut stuck = false;
        assert(s.take(0) =~= Seq::<u32>::empty());
        while !stuck && depth < strokes.len()
            invariant
                depth <= strokes.len(),
                s == strokes@,
                nodes == self.nodes.deep_view(),
                m == entries_of(nodes),
                links_in_range(nodes),
                cur < nodes.len(),
                node_at(nodes, s.take(depth as int)) == Some(cur as int),
                depth_reached(m, s, 0) == depth_reached(m, s, depth as nat),
                stuck ==> depth < s.len() && !m.dom().contains(s.take(depth + 1)),
                match found {
                    Some((node, j)) => deepest_entry(m, s, depth as nat) == Some(j as nat)
                        && node_at(nodes, s.take(j as int)) == Some(node as int) && node
                        < nodes.len(),
                    None => deepest_entry(m, s, depth as nat) is None,
                },
            decreases strokes.len() - depth + if stuck { 0int } else { 1int },
        {
            proof {
                assert(s.take(depth + 1).drop_last() =~= s.take(depth as int));
                assert(s.take(depth + 1).last() == s[depth as int]);
            }
            match self.nodes[cur].get(strokes[depth]) {
                Some(child) => {
                    cur = child;
                    depth += 1;
                    if self.nodes[cur].translation.is_some() {
                        found = Some((cur, depth));
                    }
                },
                None => {
                    stuck = true;
                },
            }
        }
        proof {
            lemma_deepest_entry(m, s, depth as nat);
        }
        match found {
            Some((node, j)) => {
                let leaf = self.nodes[cur].children.is_empty();
                proof {
                    let end = s.take(depth as int);
                    if leaf {
                        assert forall|k: u32| !m.dom().contains(#[trigger] end.push(k)) by {
                            assert(end.push(k).drop_last() =~= end);
                        }
                    } else {
                        let k = choose|k: u32| nodes[cur as int].children.contains_key(k);
                        assert(end.push(k).drop_last() =~= end);
                        assert(m.dom().contains(end.push(k)));
                    }
                }
                match &self.nodes[node].translation {
                    Some(raw) => Some(
                        Translation {
                            raw: raw.clone(),
                            consumed: j,
                            complete: leaf,
                            non_undoable: false,
                        },
                    ),
                    None => None,
                }
            },
            None => None,
        }
    }
}

/// Why a dictionary text could not be loaded.
#[derive(Clone, Copy, Debug, PartialEq, Eq, Structural)]
pub enum LoadErrorKind {
    /// The line has no TAB between the strokes and the translation.
    MissingTab,
    /// The stroke text holds a character that is no key.
    UnknownKey,
    /// The line is indented deeper than an entry under the line before it
    /// can be.
    Orphan,
}

/// A dictionary line that could not be loaded.
#[derive(Clone, Copy, Debug, PartialEq, Eq, Structural)]
pub struct LoadError {
    /// The number of the line, from 1.
    pub line: usize,
    pub kind: LoadErrorKind,
}

/// The number of TABs that a line starts with.
pub open spec fn leading_tabs(line: Seq<char>) -> nat
    decreases line.len(),
{
    if line.len() > 0 && line[0] == '\t' {
        1 + leading_tabs(line.skip(1))
    } else {
        0
    }
}

/// The parts of a dictionary line.
pub struct EntryLine {
    /// The number of TABs before the stroke text.
    pub depth: nat,
    /// The stroke text: what stands between the leading TABs and the next TAB.
    pub stroke: Seq<char>,
    /// The translation: what follows that TAB, up to a further TAB if there
    /// is one.
    pub translation: Seq<char>,
}

/// Splits a dictionary line; `None` where no TAB follows the stroke text.
pub open spec fn split_entry(line: Seq<char>) -> Option<EntryLine> {
    let depth = leading_tabs(line);
    let body = line.skip(depth as int);
    let tab = first_index(body, '\t');
    let after = body.skip(tab as int + 1);
    if tab >= body.len() {
        None
    } else {
        Some(
            EntryLine {
                depth,
                stroke: body.take(tab as int),
                translation: after.take(first_index(after, '\t') as int),
            },
        )
    }
}

/// Whether `path` starts with `prefix`.
pub open spec fn has_prefix(path: Seq<u32>, prefix: Seq<u32>) -> bool {
    prefix.len() <= path.len() && path.take(prefix.len() as int) == prefix
}

/// The entries with a fresh node at `path`: what was at `path` or below it is
/// gone, and `path` leads to `text`.
pub open spec fn graft(m: Entries, path: Seq<u32>, text: Option<Seq<char>>) -> Entries {
    Map::new(
        |q: Seq<u32>| q == path || (m.dom().contains(q) && !has_prefix(q, path)),
        |q: Seq<u32>|
            if q == path {
                text
            } else {
                m[q]
            },
    )
}

/// The state of loading: the entries so far, and the strokes of the last
/// entry, which later lines may be indented under.
pub struct Loading {
    pub entries: Entries,
    pub stack: Seq<u32>,
}

/// The state before the first line: a root without a translation.
pub open spec fn loading_start() -> Loading {
    Loading { entries: map![Seq::<u32>::empty() => None::<Seq<char>>], stack: Seq::empty() }
}

/// The state after one more line. A line of depth `d` adds an entry under the
/// first `d` strokes of the entry before it.
pub open spec fn load_line(st: Loading, line: Seq<char>) -> Result<Loading, LoadErrorKind> {
    match split_entry(line) {
        None => Err(LoadErrorKind::MissingTab),
        Some(e) => match steno_id(e.stroke) {
            None => Err(LoadErrorKind::UnknownKey),
            Some(id) => if e.depth > st.stack.len() {
                Err(LoadErrorKind::Orphan)
            } else {
                let path = st.stack.take(e.depth as int).push(id);
                Ok(
                    Loading {
                        entries: graft(
                            st.entries,
                            path,
                            if e.translation.len() == 0 {
                                None
                            } else {
                                Some(e.translation)
                            },
                        ),
                        stack: path,
                    },
                )
            },
        },
    }
}

/// The entries after the lines from number `k` on, or the first line that
/// fails, counted from 1, with the reason.
pub open spec fn load_from(lines: Seq<Seq<char>>, k: nat, st: Loading) -> Result<
    Entries,
    (nat, LoadErrorKind),
>
    decreases lines.len() - k,
{
    if k >= lines.len() {
        Ok(st.entries)
    } else {
        match load_line(st, lines[k as int]) {
            Ok(next) => load_from(lines, k + 1, next),
            Err(kind) => Err((k + 1, kind)),
        }
    }
}

/// What a dictionary text holds.
pub open spec fn load(text: Seq<char>) -> Result<Entries, (nat, LoadErrorKind)> {
    load_from(lines(text), 0, loading_start())
}

/// Whether the nodes form a tree: links stay in the list, and no two paths
/// lead to the same node.
pub open spec fn is_tree(nodes: Seq<NodeView>) -> bool {
    &&& links_in_range(nodes)
    &&& forall|p: Seq<u32>, q: Seq<u32>|
        #![trigger node_at(nodes, p), node_at(nodes, q)]
        node_at(nodes, p) is Some && node_at(nodes, p) == node_at(nodes, q) ==> p == q
}

/// The nodes with a fresh last node that stroke `id` leads to from `parent`.
pub open spec fn grafted(
    nodes: Seq<NodeView>,
    parent: int,
    id: u32,
    text: Option<Seq<char>>,
) -> Seq<NodeView> {
    nodes.update(
        parent,
        NodeView {
            translation: nodes[parent].translation,
            children: nodes[parent].children.insert(id, nodes.len() as usize),
        },
    ).push(NodeView { translation: text, children: Map::empty() })
}

/// Where each path leads after a graft.
proof fn lemma_graft_walk(
    nodes: Seq<NodeView>,
    at: Seq<u32>,
    parent: int,
    id: u32,
    text: Option<Seq<char>>,
    q: Seq<u32>,
)
    requires
        is_tree(nodes),
        node_at(nodes, at) == Some(parent),
        nodes.len() <= usize::MAX,
    ensures
        q == at.push(id) ==> node_at(grafted(nodes, parent, id, text), q) == Some(
            nodes.len() as int,
        ),
        q != at.push(id) && has_prefix(q, at.push(id)) ==> node_at(
            grafted(nodes, parent, id, text),
            q,
        ) is None,
        !has_prefix(q, at.push(id)) ==> node_at(grafted(nodes, parent, id, text), q) == node_at(
            nodes,
            q,
        ),
    decreases q.len(),
{
    let path = at.push(id);
    let g = grafted(nodes, parent, id, text);
    lemma_node_in_range(nodes, at);
    if q.len() > 0 {
        let up = q.drop_last();
        lemma_graft_walk(nodes, at, parent, id, text, up);
        lemma_node_in_range(nodes, up);
        if q == path {
            assert(up =~= at);
            assert(!has_prefix(at, path));
            assert(q.take(path.len() as int) =~= q);
        } else if has_prefix(q, path) {
            assert(q.len() > path.len()) by {
                if q.len() == path.len() {
                    assert(q.take(path.len() as int) =~= q);
                }
            }
            assert(up.take(path.len() as int) =~= q.take(path.len() as int));
            assert(has_prefix(up, path));
        } else {
            if has_prefix(up, path) {
                assert(q.take(path.len() as int) =~= up.take(path.len() as int));
            }
            assert(!has_prefix(up, path));
            if node_at(nodes, up) == Some(parent) {
                assert(up == at);
                if q.last() == id {
                    assert(q =~= path);
                }
            }
        }
    } else {
        assert(!has_prefix(q, path));
    }
}

/// A graft keeps the tree a tree, and changes its entries as `graft` says.
proof fn lemma_graft(
    nodes: Seq<NodeView>,
    at: Seq<u32>,
    parent: int,
    id: u32,
    text: Option<Seq<char>>,
)
    requires
        is_tree(nodes),
        node_at(nodes, at) == Some(parent),
        nodes.len() <= usize::MAX,
    ensures
        is_tree(grafted(nodes, parent, id, text)),
        entries_of(grafted(nodes, parent, id, text)) == graft(
            entries_of(nodes),
            at.push(id),
            text,
        ),
{
    let path = at.push(id);
    let g = grafted(nodes, parent, id, text);
    lemma_node_in_range(nodes, at);
    assert forall|p: Seq<u32>, q: Seq<u32>|
        #![trigger node_at(g, p), node_at(g, q)]
        node_at(g, p) is Some && node_at(g, p) == node_at(g, q) implies p == q by {
        lemma_graft_walk(nodes, at, parent, id, text, p);
        lemma_graft_walk(nodes, at, parent, id, text, q);
        lemma_node_in_range(nodes, p);
        lemma_node_in_range(nodes, q);
    }
    assert forall|q: Seq<u32>| #[trigger]
        entries_of(g).dom().contains(q) == graft(entries_of(nodes), path, text).dom().contains(
            q,
        ) by {
        lemma_graft_walk(nodes, at, parent, id, text, q);
        if q == path {
            assert(has_prefix(q, path)) by {
                assert(q.take(path.len() as int) =~= q);
            }
        }
    }
    assert forall|q: Seq<u32>| #[trigger] entries_of(g).dom().contains(q) implies entries_of(g)[q]
        == graft(entries_of(nodes), path, text)[q] by {
        lemma_graft_walk(nodes, at, parent, id, text, q);
        lemma_node_in_range(nodes, q);
        if q == path {
            assert(q.take(path.len() as int) =~= q);
        }
    }
    assert(entries_of(g) =~= graft(entries_of(nodes), path, text));
}

/// The number of leading TABs is where a scan from the left first meets
/// another character.
proof fn lemma_leading_tabs(line: Seq<char>, n: nat)
    requires
        n <= line.len(),
        forall|k: int| 0 <= k < n ==> line[k] == '\t',
        n == line.len() || line[n as int] != '\t',
    ensures
        leading_tabs(line) == n,
    decreases n,
{
    if n > 0 {
        lemma_leading_tabs(line.skip(1), (n - 1) as nat);
    }
}

/// Makes stroke `id` lead from node `parent` to node `child`.
fn link_child(nodes: &mut Vec<Node>, parent: usize, id: u32, child: usize)
    requires
        parent < old(nodes).len(),
    ensures
        final(nodes).deep_view() == old(nodes).deep_view().update(
            parent as int,
            NodeView {
                translation: old(nodes).deep_view()[parent as int].translation,
                children: old(nodes).deep_view()[parent as int].children.insert(id, child),
            },
        ),
{
    nodes[parent].children.insert(id, child);
    assert(nodes.deep_view() =~= old(nodes).deep_view().update(
        parent as int,
        NodeView {
            translation: old(nodes).deep_view()[parent as int].translation,
            children: old(nodes).deep_view()[parent as int].children.insert(id, child),
        },
    ));
}

/// Reads one dictionary line into its depth, its stroke id and its
/// translation.
fn read_line(line: &Vec<char>) -> (r: Result<(usize, u32, String), LoadErrorKind>)
    ensures
        match r {
            Ok((depth, id, translation)) => split_entry(line@) matches Some(e) && e.depth
                == depth && steno_id(e.stroke) == Some(id) && e.translation == translation@,
            Err(kind) => match split_entry(line@) {
                None => kind == LoadErrorKind::MissingTab,
                Some(e) => kind == LoadErrorKind::UnknownKey && steno_id(e.stroke) is None,
            },
        },
{
    let mut depth: usize = 0;
    while depth < line.len() && line[depth] == '\t'
        invariant
            depth <= line.len(),
            forall|k: int| 0 <= k < depth ==> line@[k] == '\t',
        decreases line.len() - depth,
    {
        depth += 1;
    }
    proof {
        lemma_leading_tabs(line@, depth as nat);
    }
    let tab = find(line, '\t', depth);
    if tab >= line.len() {
        return Err(LoadErrorKind::MissingTab);
    }
    let end = find(line, '\t', tab + 1);
    let stroke = string_of(line, depth, tab);
    let translation = string_of(line, tab + 1, end);
    proof {
        let body = line@.skip(depth as int);
        let after = body.skip(tab - depth + 1);
        assert(after =~= line@.skip(tab + 1));
        assert(body.take(tab - depth) =~= line@.subrange(depth as int, tab as int));
        assert(after.take(end - tab - 1) =~= line@.subrange(tab + 1, end as int));
    }
    match parse_steno(stroke.as_str()) {
        Some(id) => Ok((depth, id, translation)),
        None => Err(LoadErrorKind::UnknownKey),
    }
}

impl TreeDict {
    /// Loads a dictionary from its text: one entry per line, the stroke text
    /// and the translation parted by a TAB, and indented by one more TAB than
    /// the entry whose strokes it goes on from.
    pub fn new(text: &str) -> (r: Result<TreeDict, LoadError>)
        ensures
            match r {
                Ok(dict) => load(text@) == Ok::<Entries, (nat, LoadErrorKind)>(dict@),
                Err(e) => load(text@) == Err::<Entries, (nat, LoadErrorKind)>(
                    (e.line as nat, e.kind),
                ),
            },
    {
        let chars = chars_of(text);
        let all = split_lines(&chars);
        let mut nodes: Vec<Node> = Vec::new();
        nodes.push(Node::new(""));
        let mut stack: Vec<u32> = Vec::new();
        let mut parents: Vec<usize> = Vec::new();
        let ghost mut st = loading_start();
        proof {
            reveal_strlit("");
            let start = nodes.deep_view();
            assert forall|p: Seq<u32>| #[trigger] node_at(start, p) is Some implies p.len()
                == 0 by {
                if p.len() > 0 {
                    lemma_root_alone(start, p.drop_last());
                }
            }
            assert(entries_of(start) =~= st.entries) by {
                assert forall|p: Seq<u32>| #[trigger]
                    entries_of(start).dom().contains(p) == st.entries.dom().contains(p) by {
                    if p.len() == 0 {
                        assert(p =~= Seq::<u32>::empty());
                    }
                }
            }
            assert(is_tree(start)) by {
                assert forall|p: Seq<u32>, q: Seq<u32>|
                    #![trigger node_at(start, p), node_at(start, q)]
                    node_at(start, p) is Some && node_at(start, p) == node_at(
                        start,
                        q,
                    ) implies p == q by {
                    assert(p =~= q);
                }
            }
        }
        let mut k: usize = 0;
        while k < all.len()
            invariant
                k <= all.len(),
                rows(all@) == lines(text@),
                is_tree(nodes.deep_view()),
                entries_of(nodes.deep_view()) == st.entries,
                stack@ == st.stack,
                parents.len() == stack.len(),
                forall|j: int|
                    0 <= j < stack.len() ==> node_at(
                        nodes.deep_view(),
                        #[trigger] stack@.take(j + 1),
                    ) == Some(parents@[j] as int),
                load(text@) == load_from(lines(text@), k as nat, st),
            decreases all.len() - k,
        {
            assert(rows(all@)[k as int] == all@[k as int]@);
            let (depth, id, translation) = match read_line(&all[k]) {
                Ok(parts) => parts,
                Err(kind) => {
                    return Err(LoadError { line: k + 1, kind });
                },
            };
            if depth > stack.len() {
                return Err(LoadError { line: k + 1, kind: LoadErrorKind::Orphan });
            }
            stack.truncate(depth);
            parents.truncate(depth);
            let parent: usize = if depth == 0 {
                0
            } else {
                parents[depth - 1]
            };
            let child = nodes.len();
            let ghost before = nodes.deep_view();
            let ghost at = stack@;
            let ghost text_of = if translation@.len() == 0 {
                None
            } else {
                Some(translation@)
            };
            proof {
                assert(at =~= st.stack.take(depth as int));
                if depth > 0 {
                    assert(st.stack.take(depth as int) =~= at.take(depth as int));
                    assert(st.stack.take(depth - 1 + 1) =~= at);
                }
                assert(node_at(before, at) == Some(parent as int));
                lemma_node_in_range(before, at);
                lemma_graft(before, at, parent as int, id, text_of);
                assert forall|j: int| 0 <= j < at.len() implies node_at(
                    grafted(before, parent as int, id, text_of),
                    #[trigger] at.push(id).take(j + 1),
                ) == Some(parents@[j] as int) by {
                    let p = at.push(id).take(j + 1);
                    assert(p =~= st.stack.take(j + 1));
                    lemma_graft_walk(before, at, parent as int, id, text_of, p);
                }
                lemma_graft_walk(before, at, parent as int, id, text_of, at.push(id));
            }
            link_child(&mut nodes, parent, id, child);
            nodes.push(Node::new(translation.as_str()));
            assert(nodes.deep_view() =~= grafted(before, parent as int, id, text_of));
            stack.push(id);
            parents.push(child);
            proof {
                st = Loading {
                    entries: graft(st.entries, at.push(id), text_of),
                    stack: at.push(id),
                };
                assert(stack@.take(depth + 1) =~= stack@);
            }
            k += 1;
        }
        Ok(TreeDict { nodes })
    }
}

/// In a tree of one node without links, only the empty path leads anywhere.
proof fn lemma_root_alone(nodes: Seq<NodeView>, p: Seq<u32>)
    requires
        nodes.len() == 1,
        nodes[0].children == Map::<u32, usize>::empty(),
    ensures
        node_at(nodes, p) is Some ==> p.len() == 0,
    decreases p.len(),
{
    if p.len() > 0 {
        lemma_root_alone(nodes, p.drop_last());
    }
}

/// The key constants of the number dictionary are the ids of their chords.
pub proof fn lemma_number_keys()
    ensures
        steno_id("#"@) == Some(KEY_NUMBER),
        steno_id("S"@) == Some(KEY_S),
        steno_id("T"@) == Some(KEY_T),
        steno_id("P"@) == Some(KEY_P),
        steno_id("H"@) == Some(KEY_H),
        steno_id("A"@) == Some(KEY_A),
        steno_id("O"@) == Some(KEY_O),
        steno_id("f"@) == Some(KEY_RF),
        steno_id("p"@) == Some(KEY_RP),
        steno_id("l"@) == Some(KEY_RL),
        steno_id("t"@) == Some(KEY_RT),
        steno_id("d"@) == Some(KEY_RD),
        steno_id("z"@) == Some(KEY_RZ),
{
    crate::steno::lemma_order();
    assert(1u32 << 2 == 0x4 && 1u32 << 3 == 0x8 && 1u32 << 4 == 0x10 && 1u32 << 6 == 0x40 && 1u32
        << 8 == 0x100 && 1u32 << 10 == 0x400 && 1u32 << 11 == 0x800 && 1u32 << 15 == 0x8000
        && 1u32 << 17 == 0x2_0000 && 1u32 << 19 == 0x8_0000 && 1u32 << 21 == 0x20_0000 && 1u32
        << 23 == 0x80_0000 && 1u32 << 24 == 0x100_0000) by (bit_vector);
    reveal_strlit("#");
    crate::steno::lemma_key_id(2);
    assert("#"@ =~= seq![crate::steno::steno_order()[2]]);
    reveal_strlit("S");
    crate::steno::lemma_key_id(3);
    assert("S"@ =~= seq![crate::steno::steno_order()[3]]);
    reveal_strlit("T");
    crate::steno::lemma_key_id(4);
    assert("T"@ =~= seq![crate::steno::steno_order()[4]]);
    reveal_strlit("P");
    crate::steno::lemma_key_id(6);
    assert("P"@ =~= seq![crate::steno::steno_order()[6]]);
    reveal_strlit("H");
    crate::steno::lemma_key_id(8);
    assert("H"@ =~= seq![crate::steno::steno_order()[8]]);
    reveal_strlit("A");
    crate::steno::lemma_key_id(10);
    assert("A"@ =~= seq![crate::steno::steno_order()[10]]);
    reveal_strlit("O");
    crate::steno::lemma_key_id(11);
    assert("O"@ =~= seq![crate::steno::steno_order()[11]]);
    reveal_strlit("f");
    crate::steno::lemma_key_id(15);
    assert("f"@ =~= seq![crate::steno::steno_order()[15]]);
    reveal_strlit("p");
    crate::steno::lemma_key_id(17);
    assert("p"@ =~= seq![crate::steno::steno_order()[17]]);
    reveal_strlit("l");
    crate::steno::lemma_key_id(19);
    assert("l"@ =~= seq![crate::steno::steno_order()[19]]);
    reveal_strlit("t");
    crate::steno::lemma_key_id(21);
    assert("t"@ =~= seq![crate::steno::steno_order()[21]]);
    reveal_strlit("d");
    crate::steno::lemma_key_id(23);
    assert("d"@ =~= seq![crate::steno::steno_order()[23]]);
    reveal_strlit("z");
    crate::steno::lemma_key_id(24);
    assert("z"@ =~= seq![crate::steno::steno_order()[24]]);
}

} // verus!
