//! The translation engine and the values it trades in.

pub mod dictionary;
pub mod laws;
pub mod output;

pub use crate::steno::{id_to_steno, steno_to_id, STENO_ORDER};

use crate::engine::dictionary::{Dict, Dictionary, LoadError, NumbersDict, TreeDict};
use crate::engine::output::orthography::{Orthography, RuleView};
use crate::engine::output::{
    actions_of, annotated, lemma_actions_of_annotated, translations_to_actions,
};
use crate::text::chars_of;
use vstd::prelude::*;
use vstd::slice::slice_subrange;
use vstd::std_specs::cmp::{PartialEqSpec, PartialEqSpecImpl};

verus! {

/// A key of the host keyboard that a `{#...}` command can name.
#[derive(Clone, Copy, Debug, PartialEq, Eq, Structural)]
pub enum Key {
    Control,
    Shift,
    Alt,
    Meta,
    Backspace,
    Escape,
    Tab,
    Delete,
    Return,
    UpArrow,
    DownArrow,
    LeftArrow,
    RightArrow,
    /// Any other key, named by the character it types.
    Layout(char),
}

/// One step of keyboard output.
#[derive(Debug)]
pub enum Action {
    /// Type this text; the formatter emits one character per action.
    Text(String),
    KeyDown(Key),
    KeyUp(Key),
    KeyClick(Key),
}

/// The mathematical value of an [`Action`].
pub enum ActionView {
    Text(Seq<char>),
    KeyDown(Key),
    KeyUp(Key),
    KeyClick(Key),
}

impl View for Action {
    type V = ActionView;

    open spec fn view(&self) -> ActionView {
        match self {
            Action::Text(s) => ActionView::Text(s@),
            Action::KeyDown(k) => ActionView::KeyDown(*k),
            Action::KeyUp(k) => ActionView::KeyUp(*k),
            Action::KeyClick(k) => ActionView::KeyClick(*k),
        }
    }
}

impl DeepView for Action {
    type V = ActionView;

    open spec fn deep_view(&self) -> ActionView {
        self@
    }
}

impl PartialEq for Action {
    fn eq(&self, other: &Action) -> (r: bool) {
        match (self, other) {
            (Action::Text(a), Action::Text(b)) => *a == *b,
            (Action::KeyDown(a), Action::KeyDown(b)) => *a == *b,
            (Action::KeyUp(a), Action::KeyUp(b)) => *a == *b,
            (Action::KeyClick(a), Action::KeyClick(b)) => *a == *b,
            _ => false,
        }
    }
}

impl PartialEqSpecImpl for Action {
    open spec fn obeys_eq_spec() -> bool {
        true
    }

    open spec fn eq_spec(&self, other: &Action) -> bool {
        self@ == other@
    }
}

impl Clone for Action {
    fn clone(&self) -> (r: Action)
        ensures
            r@ == self@,
    {
        match self {
            Action::Text(s) => Action::Text(s.clone()),
            Action::KeyDown(k) => Action::KeyDown(*k),
            Action::KeyUp(k) => Action::KeyUp(*k),
            Action::KeyClick(k) => Action::KeyClick(*k),
        }
    }
}

/// A dictionary's answer for a run of strokes, with the engine's bookkeeping.
#[derive(Debug, PartialEq)]
pub struct Translation {
    /// The dictionary's output; may hold `{...}` directives.
    pub raw: String,
    /// How many strokes the translation covers.
    pub consumed: usize,
    /// No longer stroke sequence with this prefix is in the dictionary.
    pub complete: bool,
    /// The translation changed formatter state only and typed nothing.
    pub non_undoable: bool,
}

/// The mathematical value of a [`Translation`].
pub struct TranslationView {
    pub raw: Seq<char>,
    pub consumed: nat,
    pub complete: bool,
    pub non_undoable: bool,
}

impl View for Translation {
    type V = TranslationView;

    open spec fn view(&self) -> TranslationView {
        TranslationView {
            raw: self.raw@,
            consumed: self.consumed as nat,
            complete: self.complete,
            non_undoable: self.non_undoable,
        }
    }
}

impl DeepView for Translation {
    type V = TranslationView;

    open spec fn deep_view(&self) -> TranslationView {
        self@
    }
}

impl Clone for Translation {
    fn clone(&self) -> (r: Translation)
        ensures
            r@ == self@,
    {
        Translation {
            raw: self.raw.clone(),
            consumed: self.consumed,
            complete: self.complete,
            non_undoable: self.non_undoable,
        }
    }
}

impl Translation {
    /// A translation of `d` strokes that is neither complete nor silent.
    pub fn new(s: String, d: usize) -> (t: Translation)
        ensures
            t@ == (TranslationView {
                raw: s@,
                consumed: d as nat,
                complete: false,
                non_undoable: false,
            }),
    {
        Translation { raw: s, consumed: d, complete: false, non_undoable: false }
    }
}

/// How many strokes of history the engine keeps at least, as long as it has
/// them.
pub const BUFFER_SIZE: usize = 500;

/// The undo stroke, `*`.
pub const UNDO: u32 = 0x1000;

/// The answer of the first dictionary from number `k` on that has one.
pub open spec fn first_hit(dicts: Seq<Dict>, k: nat, strokes: Seq<u32>) -> Option<
    TranslationView,
>
    decreases dicts.len() - k,
{
    if k >= dicts.len() {
        None
    } else {
        match dicts[k as int].entry(strokes) {
            Some(t) => Some(t),
            None => first_hit(dicts, k + 1, strokes),
        }
    }
}

/// The first `n` strokes, the last of them without the keys of `suffix`.
pub open spec fn masked(strokes: Seq<u32>, n: nat, suffix: u32) -> Seq<u32> {
    strokes.take(n - 1).push(strokes[n - 1] & !suffix)
}

/// The first answer for the first `n` strokes, then the first `n - 1`, down
/// to one stroke, each time with `suffix` masked out of the last stroke.
pub open spec fn folded_hit(dicts: Seq<Dict>, strokes: Seq<u32>, suffix: u32, n: nat) -> Option<
    TranslationView,
>
    decreases n,
{
    if n == 0 || n > strokes.len() {
        None
    } else {
        match first_hit(dicts, 0, masked(strokes, n, suffix)) {
            Some(t) => Some(t),
            None => folded_hit(dicts, strokes, suffix, (n - 1) as nat),
        }
    }
}

/// The suffix translation as it follows a folded answer: it covers no stroke
/// of its own.
pub open spec fn as_suffix(t: TranslationView) -> TranslationView {
    TranslationView { consumed: 0, ..t }
}

/// The folded answer for the first suffix key from number `k` on that has a
/// translation of its own and yields an answer, with that translation.
pub open spec fn folded_lookup(
    dicts: Seq<Dict>,
    folding: Seq<u32>,
    k: nat,
    strokes: Seq<u32>,
) -> (Option<TranslationView>, Option<TranslationView>)
    decreases folding.len() - k,
{
    if k >= folding.len() {
        (None, None)
    } else {
        match (
            first_hit(dicts, 0, seq![folding[k as int]]),
            folded_hit(dicts, strokes, folding[k as int], strokes.len()),
        ) {
            (Some(st), Some(t)) => (Some(t), Some(as_suffix(st))),
            _ => folded_lookup(dicts, folding, k + 1, strokes),
        }
    }
}

/// The answer for the start of `strokes`: that of the first dictionary that
/// has one; failing that, a folded answer with its suffix translation.
pub open spec fn lookup_entry(dicts: Seq<Dict>, folding: Seq<u32>, strokes: Seq<u32>) -> (
    Option<TranslationView>,
    Option<TranslationView>,
) {
    match first_hit(dicts, 0, strokes) {
        Some(t) => (Some(t), None),
        None => folded_lookup(dicts, folding, 0, strokes),
    }
}

/// The translation that stands for a stroke that nothing translates: the
/// stroke id in decimal.
pub open spec fn placeholder(stroke: u32) -> TranslationView {
    TranslationView {
        raw: decimal(stroke as nat),
        consumed: 1,
        complete: false,
        non_undoable: false,
    }
}

/// The decimal digits of a number.
pub open spec fn decimal(n: nat) -> Seq<char>
    decreases n,
{
    if n < 10 {
        seq![digit_char(n)]
    } else {
        decimal(n / 10).push(digit_char(n % 10))
    }
}

/// The character of a decimal digit.
pub open spec fn digit_char(d: nat) -> char {
    if d == 0 {
        '0'
    } else if d == 1 {
        '1'
    } else if d == 2 {
        '2'
    } else if d == 3 {
        '3'
    } else if d == 4 {
        '4'
    } else if d == 5 {
        '5'
    } else if d == 6 {
        '6'
    } else if d == 7 {
        '7'
    } else if d == 8 {
        '8'
    } else {
        '9'
    }
}

/// An answer of a dictionary covers at least one stroke and no more than
/// were given.
pub proof fn lemma_first_hit(dicts: Seq<Dict>, k: nat, strokes: Seq<u32>)
    ensures
        first_hit(dicts, k, strokes) matches Some(t) ==> 1 <= t.consumed <= strokes.len(),
    decreases dicts.len() - k,
{
    if k < dicts.len() {
        dicts[k as int].entry_in_range(strokes);
        lemma_first_hit(dicts, k + 1, strokes);
    }
}

/// A folded answer covers at least one stroke and no more than were tried.
pub proof fn lemma_folded_hit(dicts: Seq<Dict>, strokes: Seq<u32>, suffix: u32, n: nat)
    ensures
        folded_hit(dicts, strokes, suffix, n) matches Some(t) ==> 1 <= t.consumed <= n && n
            <= strokes.len(),
    decreases n,
{
    if n > 0 && n <= strokes.len() {
        lemma_first_hit(dicts, 0, masked(strokes, n, suffix));
        lemma_folded_hit(dicts, strokes, suffix, (n - 1) as nat);
    }
}

/// What `folded_lookup` returns is a main answer within the strokes together
/// with a suffix translation that covers nothing, or nothing at all.
pub proof fn lemma_folded_lookup(dicts: Seq<Dict>, folding: Seq<u32>, k: nat, strokes: Seq<u32>)
    ensures
        folded_lookup(dicts, folding, k, strokes).0 matches Some(t) ==> 1 <= t.consumed
            <= strokes.len(),
        folded_lookup(dicts, folding, k, strokes).1 matches Some(st) ==> st.consumed == 0,
        folded_lookup(dicts, folding, k, strokes).0 is None ==> folded_lookup(
            dicts,
            folding,
            k,
            strokes,
        ).1 is None,
    decreases folding.len() - k,
{
    if k < folding.len() {
        lemma_folded_hit(dicts, strokes, folding[k as int], strokes.len());
        lemma_folded_lookup(dicts, folding, k + 1, strokes);
    }
}

/// The main answer of a lookup covers at least one stroke and no more than
/// were given; the suffix translation covers none.
pub proof fn lemma_lookup_entry(dicts: Seq<Dict>, folding: Seq<u32>, strokes: Seq<u32>)
    ensures
        lookup_entry(dicts, folding, strokes).0 matches Some(t) ==> 1 <= t.consumed
            <= strokes.len(),
        lookup_entry(dicts, folding, strokes).1 matches Some(st) ==> st.consumed == 0,
        lookup_entry(dicts, folding, strokes).0 is None ==> lookup_entry(
            dicts,
            folding,
            strokes,
        ).1 is None,
{
    lemma_first_hit(dicts, 0, strokes);
    lemma_folded_lookup(dicts, folding, 0, strokes);
}

/// The translations of a run of strokes, taken greedily from the left: at
/// each place the answer for the strokes from there on, with its suffix
/// translation if it was folded, and then on behind the strokes it covers; a
/// stroke that has no answer stands for itself.
pub open spec fn greedy(dicts: Seq<Dict>, folding: Seq<u32>, strokes: Seq<u32>) -> Seq<
    TranslationView,
>
    decreases strokes.len(),
    via greedy_decreases
{
    if strokes.len() == 0 {
        Seq::empty()
    } else {
        match lookup_entry(dicts, folding, strokes) {
            (Some(t), Some(st)) => seq![t, st] + greedy(
                dicts,
                folding,
                strokes.skip(t.consumed as int),
            ),
            (Some(t), None) => seq![t] + greedy(dicts, folding, strokes.skip(t.consumed as int)),
            (None, _) => seq![placeholder(strokes[0])] + greedy(dicts, folding, strokes.skip(1)),
        }
    }
}

#[via_fn]
proof fn greedy_decreases(dicts: Seq<Dict>, folding: Seq<u32>, strokes: Seq<u32>) {
    lemma_lookup_entry(dicts, folding, strokes);
}

/// Appends the decimal digits of `n` to `out`.
fn push_decimal(n: u32, out: &mut String)
    ensures
        final(out)@ == old(out)@ + decimal(n as nat),
    decreases n,
{
    if n >= 10 {
        push_decimal(n / 10, out);
    }
    let d = n % 10;
    let c = if d == 0 {
        '0'
    } else if d == 1 {
        '1'
    } else if d == 2 {
        '2'
    } else if d == 3 {
        '3'
    } else if d == 4 {
        '4'
    } else if d == 5 {
        '5'
    } else if d == 6 {
        '6'
    } else if d == 7 {
        '7'
    } else if d == 8 {
        '8'
    } else {
        '9'
    };
    out.push(c);
    assert(out@ =~= old(out)@ + decimal(n as nat));
}

/// The engine: the strokes received, the translations that stand for them,
/// and what translates and formats them.
pub struct Engine {
    dictionaries: Vec<Dict>,
    strokes: Vec<u32>,
    translations: Vec<Translation>,
    suffix_folding: Vec<u32>,
    orthography: Orthography,
}

impl Engine {
    /// The dictionaries, the one asked first in front.
    pub closed spec fn dicts(&self) -> Seq<Dict> {
        self.dictionaries@
    }

    /// The suffix keys that may be folded into a stroke, in the order tried.
    pub closed spec fn folding(&self) -> Seq<u32> {
        self.suffix_folding@
    }

    /// The strokes held.
    pub closed spec fn stroke_seq(&self) -> Seq<u32> {
        self.strokes@
    }

    /// The translations held.
    pub closed spec fn translation_seq(&self) -> Seq<TranslationView> {
        self.translations.deep_view()
    }

    /// The spelling rules of the formatter.
    pub closed spec fn rules(&self) -> Seq<RuleView> {
        self.orthography.rules()
    }

    /// The word list of the formatter.
    pub closed spec fn words(&self) -> Set<Seq<char>> {
        self.orthography.words()
    }

    /// The strokes held.
    pub fn strokes(&self) -> (s: &Vec<u32>)
        ensures
            s@ == self.stroke_seq(),
    {
        &self.strokes
    }

    /// The translations held.
    pub fn translations(&self) -> (t: &Vec<Translation>)
        ensures
            t.deep_view() == self.translation_seq(),
    {
        &self.translations
    }

    /// Asks each dictionary in turn for the start of `strokes`.
    pub fn lookup_helper(&self, strokes: &[u32]) -> (r: Option<Translation>)
        ensures
            r.deep_view() == first_hit(self.dicts(), 0, strokes@),
    {
        let mut k: usize = 0;
        while k < self.dictionaries.len()
            invariant
                k <= self.dictionaries.len(),
                first_hit(self.dicts(), 0, strokes@) == first_hit(self.dicts(), k as nat, strokes@),
            decreases self.dictionaries.len() - k,
        {
            let hit = self.dictionaries[k].get(strokes);
            if hit.is_some() {
                return hit;
            }
            k += 1;
        }
        None
    }

    /// Looks for a folded answer: for strokes `0..n`, `0..n-1`, down to the
    /// first stroke alone, each time with `suffix` masked out of the last.
    fn folded(&self, strokes: &[u32], suffix: u32) -> (r: Option<Translation>)
        ensures
            r.deep_view() == folded_hit(self.dicts(), strokes@, suffix, strokes@.len()),
    {
        let mut n: usize = strokes.len();
        while n > 0
            invariant
                n <= strokes.len(),
                folded_hit(self.dicts(), strokes@, suffix, strokes@.len()) == folded_hit(
                    self.dicts(),
                    strokes@,
                    suffix,
                    n as nat,
                ),
            decreases n,
        {
            let mut search: Vec<u32> = Vec::new();
            let mut j: usize = 0;
            while j + 1 < n
                invariant
                    j + 1 <= n <= strokes.len(),
                    search@ == strokes@.take(j as int),
                decreases n - j,
            {
                search.push(strokes[j]);
                assert(strokes@.take(j + 1) =~= strokes@.take(j as int).push(strokes@[j as int]));
                j += 1;
            }
            search.push(strokes[n - 1] & !suffix);
            let hit = self.lookup_helper(search.as_slice());
            if hit.is_some() {
                return hit;
            }
            n -= 1;
        }
        None
    }

    /// Translates the start of `strokes`. The second item is the translation
    /// of a suffix key that was folded out of the answer's last stroke.
    pub fn lookup(&self, strokes: &[u32]) -> (r: (Option<Translation>, Option<Translation>))
        ensures
            (r.0.deep_view(), r.1.deep_view()) == lookup_entry(
                self.dicts(),
                self.folding(),
                strokes@,
            ),
    {
        let direct = self.lookup_helper(strokes);
        if direct.is_some() {
            return (direct, None);
        }
        let mut k: usize = 0;
        while k < self.suffix_folding.len()
            invariant
                k <= self.suffix_folding.len(),
                first_hit(self.dicts(), 0, strokes@) is None,
                lookup_entry(self.dicts(), self.folding(), strokes@) == folded_lookup(
                    self.dicts(),
                    self.folding(),
                    k as nat,
                    strokes@,
                ),
            decreases self.suffix_folding.len() - k,
        {
            let suffix = self.suffix_folding[k];
            let mut alone: Vec<u32> = Vec::new();
            alone.push(suffix);
            assert(alone@ =~= seq![suffix]);
            match self.lookup_helper(alone.as_slice()) {
                Some(mut st) => {
                    st.consumed = 0;
                    let hit = self.folded(strokes, suffix);
                    if hit.is_some() {
                        return (hit, Some(st));
                    }
                },
                None => {},
            }
            k += 1;
        }
        (None, None)
    }

    /// Translates a run of strokes greedily from the left.
    pub fn translate_strokes(&self, strokes: &[u32]) -> (r: Vec<Translation>)
        ensures
            r.deep_view() == greedy(self.dicts(), self.folding(), strokes@),
    {
        let mut out: Vec<Translation> = Vec::new();
        let mut i: usize = 0;
        assert(strokes@.skip(0) =~= strokes@);
        assert(out.deep_view() =~= Seq::<TranslationView>::empty());
        while i < strokes.len()
            invariant
                i <= strokes.len(),
                greedy(self.dicts(), self.folding(), strokes@) == out.deep_view() + greedy(
                    self.dicts(),
                    self.folding(),
                    strokes@.skip(i as int),
                ),
            decreases strokes.len() - i,
        {
            let ghost rest = strokes@.skip(i as int);
            let ghost done = out.deep_view();
            let (main, suffix) = self.lookup(slice_subrange(strokes, i, strokes.len()));
            proof {
                assert(strokes@.subrange(i as int, strokes.len() as int) =~= rest);
                lemma_lookup_entry(self.dicts(), self.folding(), rest);
            }
            match main {
                Some(t) => {
                    let step = t.consumed;
                    assert(rest.skip(step as int) =~= strokes@.skip(i + step));
                    let ghost tv = t@;
                    out.push(t);
                    match suffix {
                        Some(st) => {
                            let ghost sv = st@;
                            out.push(st);
                            assert(out.deep_view() =~= done + seq![tv, sv]);
                        },
                        None => {
                            assert(out.deep_view() =~= done + seq![tv]);
                        },
                    }
                    i += step;
                },
                None => {
                    let mut raw = String::new();
                    push_decimal(strokes[i], &mut raw);
                    assert(raw@ =~= decimal(strokes@[i as int] as nat));
                    out.push(Translation::new(raw, 1));
                    assert(rest.skip(1) =~= strokes@.skip(i + 1));
                    assert(out.deep_view() =~= done + seq![placeholder(rest[0])]);
                    i += 1;
                },
            }
        }
        assert(strokes@.skip(strokes.len() as int) =~= Seq::<u32>::empty());
        out
    }
}

/// The number of strokes that a run of translations covers.
pub open spec fn consumed_sum(ts: Seq<TranslationView>) -> nat
    decreases ts.len(),
{
    if ts.len() == 0 {
        0
    } else {
        consumed_sum(ts.drop_last()) + ts.last().consumed
    }
}

/// Where the translations that are kept start: the walk goes back from
/// position `at`, with `n` strokes counted so far, until `BUFFER_SIZE`
/// strokes are counted or no translation is left.
pub open spec fn flush_start(ts: Seq<TranslationView>, at: nat, n: nat) -> nat
    decreases at,
{
    if at > 0 && n < BUFFER_SIZE {
        flush_start(ts, (at - 1) as nat, n + ts[at - 1].consumed)
    } else {
        at
    }
}

/// The translations that the buffer keeps.
pub open spec fn kept_translations(ts: Seq<TranslationView>) -> Seq<TranslationView> {
    ts.skip(flush_start(ts, ts.len(), 0) as int)
}

/// The strokes that the buffer keeps: as many of the last as the kept
/// translations cover.
pub open spec fn kept_strokes(strokes: Seq<u32>, ts: Seq<TranslationView>) -> Seq<u32> {
    strokes.skip(strokes.len() - consumed_sum(kept_translations(ts)))
}

/// The end of the run of translations from position `k` on that are complete
/// and cover a stroke.
pub open spec fn complete_run(ts: Seq<TranslationView>, k: nat) -> nat
    decreases ts.len() - k,
{
    if k < ts.len() && ts[k as int].complete && ts[k as int].consumed > 0 {
        complete_run(ts, k + 1)
    } else {
        k
    }
}

/// Where the translations that a stroke may change start: at the last of
/// the leading complete translations, which an undo may still need.
pub open spec fn window_start(ts: Seq<TranslationView>) -> nat {
    if complete_run(ts, 0) > 0 {
        (complete_run(ts, 0) - 1) as nat
    } else {
        0
    }
}

/// The start of the run of silent translations that ends before position
/// `n`.
pub open spec fn silent_run(ts: Seq<TranslationView>, n: nat) -> nat
    decreases n,
{
    if n > 0 && n <= ts.len() && ts[n - 1].non_undoable {
        silent_run(ts, (n - 1) as nat)
    } else {
        n
    }
}

/// How many strokes an undo takes back: one, and one more for each silent
/// translation at the end.
pub open spec fn undo_count(ts: Seq<TranslationView>) -> nat {
    (ts.len() - silent_run(ts, ts.len()) + 1) as nat
}

/// The first position from `k` on at which two sequences differ or one of
/// them ends.
pub open spec fn common_prefix<A>(a: Seq<A>, b: Seq<A>, k: nat) -> nat
    decreases a.len() - k,
{
    if k < a.len() && k < b.len() && a[k as int] == b[k as int] {
        common_prefix(a, b, k + 1)
    } else {
        k
    }
}

/// `a - b`, or 0 where that is negative.
pub open spec fn minus(a: nat, b: nat) -> nat {
    if a >= b {
        (a - b) as nat
    } else {
        0
    }
}

/// What a stroke does to the engine and what it returns.
pub struct Outcome {
    /// The strokes held afterwards.
    pub strokes: Seq<u32>,
    /// The translations held afterwards.
    pub translations: Seq<TranslationView>,
    /// The actions to take back, last first on the screen.
    pub del: Seq<ActionView>,
    /// The actions to perform then.
    pub add: Seq<ActionView>,
}

/// What comes of translating the tail anew: the engine holds the strokes
/// `next`, the translations from `window_start` on are replaced by the greedy
/// translation of the last `span` strokes, and what the old and the new tail
/// come to as actions is returned without the part that both start with.
pub open spec fn retranslated(
    dicts: Seq<Dict>,
    folding: Seq<u32>,
    rules: Seq<RuleView>,
    words: Set<Seq<char>>,
    kept: Seq<TranslationView>,
    next: Seq<u32>,
    span: nat,
) -> Outcome {
    let start = window_start(kept);
    let new_tail = annotated(greedy(dicts, folding, next.skip(next.len() - span)));
    let old_actions = actions_of(rules, words, kept.skip(start as int));
    let new_actions = actions_of(rules, words, new_tail);
    let shared = common_prefix(old_actions, new_actions, 0);
    Outcome {
        strokes: next,
        translations: kept.take(start as int) + new_tail,
        del: old_actions.skip(shared as int),
        add: new_actions.skip(shared as int),
    }
}

/// What the stroke `stroke` does to an engine that holds `strokes` and
/// `translations`.
///
/// The buffer is flushed first. The translations from `window_start` on are
/// the old tail. An undo takes `undo_count` strokes off the end, and does
/// nothing where no stroke is held; any other stroke is added. The new tail
/// translates the strokes that the old tail covered, less those taken off or
/// with the one added.
pub open spec fn outcome(
    dicts: Seq<Dict>,
    folding: Seq<u32>,
    rules: Seq<RuleView>,
    words: Set<Seq<char>>,
    strokes: Seq<u32>,
    translations: Seq<TranslationView>,
    stroke: u32,
) -> Outcome {
    let kept = kept_translations(translations);
    let held = kept_strokes(strokes, translations);
    let covered = consumed_sum(kept.skip(window_start(kept) as int));
    if stroke != UNDO {
        retranslated(dicts, folding, rules, words, kept, held.push(stroke), covered + 1)
    } else if held.len() == 0 {
        Outcome { strokes: held, translations: kept, del: Seq::empty(), add: Seq::empty() }
    } else {
        retranslated(
            dicts,
            folding,
            rules,
            words,
            kept,
            held.take(minus(held.len(), undo_count(kept)) as int),
            minus(covered, undo_count(kept)),
        )
    }
}

/// Whether an undo leaves the translations covering the strokes exactly:
/// it does where no stroke is held, where it takes back no more strokes than
/// the translations that it may change cover, or where there are no others.
pub open spec fn undo_in_reach(strokes: Seq<u32>, translations: Seq<TranslationView>) -> bool {
    let kept = kept_translations(translations);
    let start = window_start(kept);
    kept_strokes(strokes, translations).len() == 0 || undo_count(kept) <= consumed_sum(
        kept.skip(start as int),
    ) || consumed_sum(kept.take(start as int)) == 0
}

/// The strokes covered by two runs of translations are those of the one and
/// those of the other.
pub proof fn lemma_consumed_sum_concat(a: Seq<TranslationView>, b: Seq<TranslationView>)
    ensures
        consumed_sum(a + b) == consumed_sum(a) + consumed_sum(b),
    decreases b.len(),
{
    if b.len() == 0 {
        assert(a + b =~= a);
    } else {
        assert((a + b).drop_last() =~= a + b.drop_last());
        lemma_consumed_sum_concat(a, b.drop_last());
    }
}

/// The silent flags do not change what the translations cover.
pub proof fn lemma_consumed_sum_annotated(ts: Seq<TranslationView>)
    ensures
        consumed_sum(annotated(ts)) == consumed_sum(ts),
    decreases ts.len(),
{
    if ts.len() > 0 {
        assert(annotated(ts).drop_last() =~= annotated(ts.drop_last()));
        lemma_consumed_sum_annotated(ts.drop_last());
    }
}

/// One translation covers what it says.
pub proof fn lemma_consumed_sum_one(t: TranslationView)
    ensures
        consumed_sum(seq![t]) == t.consumed,
{
    assert(seq![t].drop_last() =~= Seq::<TranslationView>::empty());
    assert(consumed_sum(Seq::<TranslationView>::empty()) == 0);
    assert(seq![t].last() == t);
}

/// The greedy translations of a run of strokes cover each stroke once.
pub proof fn lemma_greedy_covers(dicts: Seq<Dict>, folding: Seq<u32>, strokes: Seq<u32>)
    ensures
        consumed_sum(greedy(dicts, folding, strokes)) == strokes.len(),
    decreases strokes.len(),
{
    if strokes.len() > 0 {
        lemma_lookup_entry(dicts, folding, strokes);
        match lookup_entry(dicts, folding, strokes) {
            (Some(t), Some(st)) => {
                let rest = greedy(dicts, folding, strokes.skip(t.consumed as int));
                lemma_greedy_covers(dicts, folding, strokes.skip(t.consumed as int));
                lemma_consumed_sum_one(t);
                lemma_consumed_sum_one(st);
                lemma_consumed_sum_concat(seq![t], seq![st]);
                assert(seq![t] + seq![st] =~= seq![t, st]);
                lemma_consumed_sum_concat(seq![t, st], rest);
                assert(greedy(dicts, folding, strokes) == seq![t, st] + rest);
            },
            (Some(t), None) => {
                let rest = greedy(dicts, folding, strokes.skip(t.consumed as int));
                lemma_greedy_covers(dicts, folding, strokes.skip(t.consumed as int));
                lemma_consumed_sum_one(t);
                lemma_consumed_sum_concat(seq![t], rest);
                assert(greedy(dicts, folding, strokes) == seq![t] + rest);
            },
            (None, _) => {
                let t = placeholder(strokes[0]);
                let rest = greedy(dicts, folding, strokes.skip(1));
                lemma_greedy_covers(dicts, folding, strokes.skip(1));
                lemma_consumed_sum_one(t);
                lemma_consumed_sum_concat(seq![t], rest);
                assert(greedy(dicts, folding, strokes) == seq![t] + rest);
            },
        }
    } else {
        assert(greedy(dicts, folding, strokes) =~= Seq::<TranslationView>::empty());
    }
}

/// The length of the longest common prefix of two vectors.
pub fn diff<T: PartialEq>(a: &Vec<T>, b: &Vec<T>) -> (n: usize)
    requires
        T::obeys_eq_spec(),
    ensures
        n <= a.len(),
        n <= b.len(),
        forall|i: int| 0 <= i < n ==> (#[trigger] a@[i]).eq_spec(&b@[i]),
        n < a.len() && n < b.len() ==> !a@[n as int].eq_spec(&b@[n as int]),
{
    let mut i: usize = 0;
    while i < a.len() && i < b.len() && a[i] == b[i]
        invariant
            i <= a.len(),
            i <= b.len(),
            T::obeys_eq_spec(),
            forall|j: int| 0 <= j < i ==> (#[trigger] a@[j]).eq_spec(&b@[j]),
        decreases a.len() - i,
    {
        i += 1;
    }
    i
}

/// Two sequences agree up to their common prefix, and differ right behind it
/// unless one of them ends there.
pub proof fn lemma_common_prefix<A>(a: Seq<A>, b: Seq<A>, k: nat)
    requires
        k <= a.len(),
        k <= b.len(),
    ensures
        k <= common_prefix(a, b, k) <= a.len(),
        common_prefix(a, b, k) <= b.len(),
        forall|i: int| k <= i < common_prefix(a, b, k) ==> a[i] == b[i],
        common_prefix(a, b, k) < a.len() && common_prefix(a, b, k) < b.len() ==> a[common_prefix(
            a,
            b,
            k,
        ) as int] != b[common_prefix(a, b, k) as int],
    decreases a.len() - k,
{
    if k < a.len() && k < b.len() && a[k as int] == b[k as int] {
        lemma_common_prefix(a, b, k + 1);
    }
}

/// A position up to which two sequences agree, and at which they differ or
/// one of them ends, is their common prefix.
pub proof fn lemma_common_prefix_at<A>(a: Seq<A>, b: Seq<A>, k: nat, n: nat)
    requires
        k <= n <= a.len(),
        n <= b.len(),
        forall|i: int| k <= i < n ==> a[i] == b[i],
        n < a.len() && n < b.len() ==> a[n as int] != b[n as int],
    ensures
        common_prefix(a, b, k) == n,
    decreases n - k,
{
    if k < n {
        lemma_common_prefix_at(a, b, k + 1, n);
    }
}

impl Engine {
    /// Whether the translations held cover the strokes held exactly.
    pub open spec fn balanced(&self) -> bool {
        consumed_sum(self.translation_seq()) == self.stroke_seq().len()
    }

    /// Whether the translations held are those that the strokes held have
    /// when they are translated at once, as the formatter marks them.
    pub open spec fn coherent(&self) -> bool {
        self.translation_seq() == annotated(
            greedy(self.dicts(), self.folding(), self.stroke_seq()),
        )
    }

    /// Translations that are those of the strokes cover the strokes.
    pub proof fn lemma_coherent_is_balanced(&self)
        requires
            self.coherent(),
        ensures
            self.balanced(),
    {
        let g = greedy(self.dicts(), self.folding(), self.stroke_seq());
        lemma_greedy_covers(self.dicts(), self.folding(), self.stroke_seq());
        lemma_consumed_sum_annotated(g);
    }

    /// Drops the head of the history: keeps the last translations that
    /// together cover `BUFFER_SIZE` strokes or more, and their strokes.
    pub fn flush_buffer(&mut self)
        requires
            old(self).balanced(),
        ensures
            final(self).balanced(),
            final(self).translation_seq() == kept_translations(old(self).translation_seq()),
            final(self).stroke_seq() == kept_strokes(
                old(self).stroke_seq(),
                old(self).translation_seq(),
            ),
            final(self).dicts() == old(self).dicts(),
            final(self).folding() == old(self).folding(),
            final(self).rules() == old(self).rules(),
            final(self).words() == old(self).words(),
    {
        let ghost ts = self.translations.deep_view();
        let mut n: usize = 0;
        let mut at: usize = self.translations.len();
        assert(ts.skip(ts.len() as int) =~= Seq::<TranslationView>::empty());
        while at > 0 && n < BUFFER_SIZE
            invariant
                at <= self.translations.len(),
                ts == self.translations.deep_view(),
                consumed_sum(ts) == self.strokes.len(),
                n == consumed_sum(ts.skip(at as int)),
                flush_start(ts, ts.len(), 0) == flush_start(ts, at as nat, n as nat),
            decreases at,
        {
            proof {
                let head = seq![ts[at - 1]];
                assert(ts.skip(at - 1) =~= head + ts.skip(at as int));
                lemma_consumed_sum_concat(head, ts.skip(at as int));
                lemma_consumed_sum_one(ts[at - 1]);
                assert(ts =~= ts.take(at - 1) + ts.skip(at - 1));
                lemma_consumed_sum_concat(ts.take(at - 1), ts.skip(at - 1));
            }
            at -= 1;
            n += self.translations[at].consumed;
        }
        proof {
            assert(ts =~= ts.take(at as int) + ts.skip(at as int));
            lemma_consumed_sum_concat(ts.take(at as int), ts.skip(at as int));
        }
        let kept = self.translations.split_off(at);
        self.translations = kept;
        let from = self.strokes.len() - n;
        let held = self.strokes.split_off(from);
        self.strokes = held;
        proof {
            assert(self.translations.deep_view() =~= ts.skip(at as int));
            assert(self.strokes@ =~= old(self).strokes@.skip(from as int));
        }
    }
}

impl Engine {
    /// Where the translations that a stroke may change start.
    fn window(&self) -> (start: usize)
        ensures
            start == window_start(self.translation_seq()),
            start <= self.translation_seq().len(),
    {
        let ghost kept = self.translations.deep_view();
        let count = self.translations.len();
        let mut run: usize = 0;
        while run < count && self.translations[run].complete && self.translations[run].consumed
            > 0
            invariant
                run <= count,
                count == self.translations.len(),
                kept == self.translations.deep_view(),
                complete_run(kept, 0) == complete_run(kept, run as nat),
            decreases count - run,
        {
            run += 1;
        }
        if run > 0 {
            run - 1
        } else {
            0
        }
    }

    /// A copy of the translations from `start` on, and the number of strokes
    /// that they cover.
    fn tail_from(&self, start: usize) -> (r: (Vec<Translation>, usize))
        requires
            self.balanced(),
            start <= self.translation_seq().len(),
        ensures
            r.0.deep_view() == self.translation_seq().skip(start as int),
            r.1 == consumed_sum(self.translation_seq().skip(start as int)),
            r.1 + consumed_sum(self.translation_seq().take(start as int))
                == self.stroke_seq().len(),
    {
        let ghost kept = self.translations.deep_view();
        let count = self.translations.len();
        let mut tail: Vec<Translation> = Vec::new();
        let mut span: usize = 0;
        let mut j: usize = start;
        proof {
            assert(kept.subrange(start as int, start as int) =~= Seq::<TranslationView>::empty());
            assert(kept =~= kept.take(start as int) + kept.skip(start as int));
            lemma_consumed_sum_concat(kept.take(start as int), kept.skip(start as int));
        }
        while j < count
            invariant
                start <= j <= count,
                count == self.translations.len(),
                kept == self.translations.deep_view(),
                tail.deep_view() == kept.subrange(start as int, j as int),
                span == consumed_sum(kept.subrange(start as int, j as int)),
                consumed_sum(kept.skip(start as int)) <= self.strokes.len(),
            decreases count - j,
        {
            proof {
                let done = kept.subrange(start as int, j as int);
                let more = kept.subrange(start as int, j + 1);
                assert(more =~= done + seq![kept[j as int]]);
                lemma_consumed_sum_concat(done, seq![kept[j as int]]);
                lemma_consumed_sum_one(kept[j as int]);
                assert(kept.skip(start as int) =~= more + kept.skip(j + 1));
                lemma_consumed_sum_concat(more, kept.skip(j + 1));
            }
            span += self.translations[j].consumed;
            let ghost before = tail.deep_view();
            tail.push(self.translations[j].clone());
            assert(tail.deep_view() =~= before.push(kept[j as int]));
            j += 1;
        }
        assert(kept.subrange(start as int, count as int) =~= kept.skip(start as int));
        (tail, span)
    }

    /// The number of silent translations at the end.
    fn silent_tail(&self) -> (n: usize)
        ensures
            n + 1 == undo_count(self.translation_seq()),
    {
        let ghost kept = self.translations.deep_view();
        let count = self.translations.len();
        let mut at: usize = count;
        while at > 0 && self.translations[at - 1].non_undoable
            invariant
                at <= count,
                count == self.translations.len(),
                kept == self.translations.deep_view(),
                silent_run(kept, kept.len()) == silent_run(kept, at as nat),
            decreases at,
        {
            at -= 1;
        }
        count - at
    }

    /// Translates the last `span` strokes anew and puts the result in place
    /// of the translations from `start` on, of which `old_tail` is a copy.
    fn retranslate(&mut self, start: usize, span: usize, old_tail: Vec<Translation>) -> (r: (
        Vec<Action>,
        Vec<Action>,
    ))
        requires
            start == window_start(old(self).translation_seq()),
            start <= old(self).translation_seq().len(),
            old_tail.deep_view() == old(self).translation_seq().skip(start as int),
            span <= old(self).stroke_seq().len(),
        ensures
            final(self).dicts() == old(self).dicts(),
            final(self).folding() == old(self).folding(),
            final(self).rules() == old(self).rules(),
            final(self).words() == old(self).words(),
            (Outcome {
                strokes: final(self).stroke_seq(),
                translations: final(self).translation_seq(),
                del: r.0.deep_view(),
                add: r.1.deep_view(),
            }) == retranslated(
                old(self).dicts(),
                old(self).folding(),
                old(self).rules(),
                old(self).words(),
                old(self).translation_seq(),
                old(self).stroke_seq(),
                span as nat,
            ),
            consumed_sum(final(self).translation_seq()) == consumed_sum(
                old(self).translation_seq().take(start as int),
            ) + span,
    {
        let mut old_tail = old_tail;
        let ghost kept = self.translations.deep_view();
        let ghost next = self.strokes@;
        let from = self.strokes.len() - span;
        let mut new_tail = self.translate_strokes(
            slice_subrange(self.strokes.as_slice(), from, self.strokes.len()),
        );
        assert(next.subrange(from as int, next.len() as int) =~= next.skip(from as int));
        let ghost fresh = new_tail.deep_view();
        let mut old_actions = translations_to_actions(&self.orthography, &mut old_tail);
        let mut new_actions = translations_to_actions(&self.orthography, &mut new_tail);
        let ghost old_seq = old_actions.deep_view();
        let ghost new_seq = new_actions.deep_view();
        self.translations.truncate(start);
        let ghost frozen = self.translations.deep_view();
        assert(frozen =~= kept.take(start as int));
        let ghost tail = new_tail.deep_view();
        self.translations.append(&mut new_tail);
        assert(self.translations.deep_view() =~= frozen + tail);
        let shared = diff(&old_actions, &new_actions);
        proof {
            assert forall|i: int| 0 <= i < shared implies old_seq[i] == new_seq[i] by {
                assert(PartialEqSpec::eq_spec(&old_actions@[i], &new_actions@[i]));
            }
            if shared < old_seq.len() && shared < new_seq.len() {
                assert(!PartialEqSpec::eq_spec(
                    &old_actions@[shared as int],
                    &new_actions@[shared as int],
                ));
            }
            lemma_common_prefix_at(old_seq, new_seq, 0, shared as nat);
            lemma_greedy_covers(self.dicts(), self.folding(), next.skip(from as int));
            lemma_consumed_sum_annotated(fresh);
            lemma_consumed_sum_concat(frozen, tail);
            lemma_actions_of_annotated(self.rules(), self.words(), fresh);
        }
        let del = old_actions.split_off(shared);
        let add = new_actions.split_off(shared);
        proof {
            assert(del.deep_view() =~= old_seq.skip(shared as int));
            assert(add.deep_view() =~= new_seq.skip(shared as int));
        }
        (del, add)
    }

    /// Takes in a stroke: translates anew the tail of the history that the
    /// stroke may change, and returns the actions to take back and the
    /// actions to perform in their place.
    pub fn process_stroke(&mut self, stroke: u32) -> (r: (Vec<Action>, Vec<Action>))
        requires
            old(self).balanced(),
        ensures
            final(self).dicts() == old(self).dicts(),
            final(self).folding() == old(self).folding(),
            final(self).rules() == old(self).rules(),
            final(self).words() == old(self).words(),
            (Outcome {
                strokes: final(self).stroke_seq(),
                translations: final(self).translation_seq(),
                del: r.0.deep_view(),
                add: r.1.deep_view(),
            }) == outcome(
                old(self).dicts(),
                old(self).folding(),
                old(self).rules(),
                old(self).words(),
                old(self).stroke_seq(),
                old(self).translation_seq(),
                stroke,
            ),
            final(self).balanced() == (stroke != UNDO || undo_in_reach(
                old(self).stroke_seq(),
                old(self).translation_seq(),
            )),
            old(self).coherent() && stroke != UNDO && crate::engine::laws::answers_stable(
                old(self).dicts(),
            ) ==> final(self).coherent(),
    {
        proof {
            if old(self).coherent() && stroke != UNDO && crate::engine::laws::answers_stable(
                old(self).dicts(),
            ) {
                crate::engine::laws::law_incremental_is_batch(
                    old(self).dicts(),
                    old(self).folding(),
                    old(self).rules(),
                    old(self).words(),
                    old(self).stroke_seq(),
                    stroke,
                );
            }
        }
        self.flush_buffer();
        let start = self.window();
        let (old_tail, covered) = self.tail_from(start);
        let ghost held = self.strokes@;
        let ghost kept = self.translations.deep_view();
        if stroke != UNDO {
            self.strokes.push(stroke);
            assert(self.strokes.len() <= usize::MAX);
            self.retranslate(start, covered + 1, old_tail)
        } else if self.strokes.len() == 0 {
            let del: Vec<Action> = Vec::new();
            let add: Vec<Action> = Vec::new();
            assert(del.deep_view() =~= Seq::<ActionView>::empty());
            assert(add.deep_view() =~= Seq::<ActionView>::empty());
            (del, add)
        } else {
            let silent = self.silent_tail();
            let left = self.strokes.len().saturating_sub(silent).saturating_sub(1);
            self.strokes.truncate(left);
            assert(self.strokes@ =~= held.take(minus(held.len(), undo_count(kept)) as int));
            self.retranslate(start, covered.saturating_sub(silent).saturating_sub(1), old_tail)
        }
    }
}

/// The suffix keys that are folded by default: the right-hand `z`, `d`, `s`
/// and `g`, tried in this order.
pub open spec fn default_folding() -> Seq<u32> {
    seq![0x100_0000u32, 0x80_0000u32, 0x40_0000u32, 0x10_0000u32]
}

/// Whether a path names a text dictionary: its part behind the last `.`, or
/// the whole of it where it has none, is `txt`.
pub open spec fn is_text_dictionary(path: Seq<char>) -> bool {
    path.len() >= 3 && path.skip(path.len() - 3) == "txt"@ && (path.len() == 3 || path[path.len()
        - 4] == '.')
}

impl Engine {
    /// An engine with no history that knows the number dictionary, the
    /// default suffix keys and the English spelling rules without a word
    /// list.
    pub fn new() -> (e: Engine)
        ensures
            e.balanced(),
            e.coherent(),
            e.stroke_seq() == Seq::<u32>::empty(),
            e.translation_seq() == Seq::<TranslationView>::empty(),
            e.dicts().len() == 1,
            e.dicts()[0] is Numbers,
            e.folding() == default_folding(),
            e.rules() == crate::engine::output::orthography::english_rules(),
            e.words() == Set::<Seq<char>>::empty(),
    {
        let mut dictionaries: Vec<Dict> = Vec::new();
        dictionaries.push(Dict::Numbers(NumbersDict::new()));
        let mut suffix_folding: Vec<u32> = Vec::new();
        suffix_folding.push(0x100_0000);
        suffix_folding.push(0x80_0000);
        suffix_folding.push(0x40_0000);
        suffix_folding.push(0x10_0000);
        let e = Engine {
            dictionaries,
            strokes: Vec::new(),
            translations: Vec::new(),
            suffix_folding,
            orthography: Orthography::english(),
        };
        proof {
            assert(e.translations.deep_view() =~= Seq::<TranslationView>::empty());
            assert(e.suffix_folding@ =~= default_folding());
            assert(annotated(greedy(e.dicts(), e.folding(), e.stroke_seq()))
                =~= Seq::<TranslationView>::empty());
        }
        e
    }

    /// Adds the dictionary held in `text`, which was read from `path`, in
    /// front of the others. A path that names no text dictionary is passed
    /// over. Where a line of the text cannot be loaded nothing is added.
    pub fn add_dict(&mut self, path: &str, text: &str) -> (r: Result<(), LoadError>)
        ensures
            final(self).stroke_seq() == old(self).stroke_seq(),
            final(self).translation_seq() == old(self).translation_seq(),
            final(self).folding() == old(self).folding(),
            final(self).rules() == old(self).rules(),
            final(self).words() == old(self).words(),
            !is_text_dictionary(path@) ==> r is Ok && final(self).dicts() == old(self).dicts(),
            is_text_dictionary(path@) ==> match crate::engine::dictionary::load(text@) {
                Ok(entries) => {
                    &&& r is Ok
                    &&& final(self).dicts().len() == old(self).dicts().len() + 1
                    &&& final(self).dicts().skip(1) == old(self).dicts()
                    &&& final(self).dicts()[0] matches Dict::Tree(d) && d@ == entries
                },
                Err(e) => {
                    &&& r matches Err(err) && (err.line as nat, err.kind) == e
                    &&& final(self).dicts() == old(self).dicts()
                },
            },
    {
        let name = chars_of(path);
        let n = name.len();
        let suffix = chars_of("txt");
        proof {
            reveal_strlit("txt");
        }
        let named = n >= 3 && crate::text::matches_at(&name, n - 3, &suffix) && (n == 3 || name[n
            - 4] == '.');
        proof {
            if n >= 3 {
                assert(name@.skip(n - 3) =~= name@.subrange(n - 3, n - 3 + 3));
            }
        }
        if !named {
            return Ok(());
        }
        match TreeDict::new(text) {
            Ok(dict) => {
                self.dictionaries.insert(0, Dict::Tree(dict));
                assert(self.dictionaries@.skip(1) =~= old(self).dictionaries@);
                Ok(())
            },
            Err(e) => Err(e),
        }
    }

    /// Adds the words of `wordlist`, one per line, to the word list of the
    /// formatter.
    pub fn add_words(&mut self, wordlist: &str)
        ensures
            final(self).stroke_seq() == old(self).stroke_seq(),
            final(self).translation_seq() == old(self).translation_seq(),
            final(self).dicts() == old(self).dicts(),
            final(self).folding() == old(self).folding(),
            final(self).rules() == old(self).rules(),
            final(self).words() == old(self).words().union(
                crate::engine::output::orthography::listed_words(wordlist@),
            ),
    {
        self.orthography.add_words(wordlist);
    }
}

impl Engine {
    /// Tests whether the translations held cover the strokes held exactly.
    pub fn is_balanced(&self) -> (b: bool)
        ensures
            b == self.balanced(),
    {
        let ghost ts = self.translations.deep_view();
        let mut sum: usize = 0;
        let mut i: usize = 0;
        assert(ts.take(0) =~= Seq::<TranslationView>::empty());
        while i < self.translations.len()
            invariant
                i <= self.translations.len(),
                ts == self.translations.deep_view(),
                sum == consumed_sum(ts.take(i as int)),
                sum <= self.strokes.len(),
            decreases self.translations.len() - i,
        {
            let c = self.translations[i].consumed;
            proof {
                assert(ts.take(i + 1) =~= ts.take(i as int) + seq![ts[i as int]]);
                lemma_consumed_sum_concat(ts.take(i as int), seq![ts[i as int]]);
                lemma_consumed_sum_one(ts[i as int]);
                assert(ts =~= ts.take(i + 1) + ts.skip(i + 1));
                lemma_consumed_sum_concat(ts.take(i + 1), ts.skip(i + 1));
            }
            if c > self.strokes.len() - sum {
                return false;
            }
            sum += c;
            i += 1;
        }
        assert(ts.take(ts.len() as int) =~= ts);
        sum == self.strokes.len()
    }
}

/// The undo stroke is the chord `*`, and the default suffix keys are the
/// chords `z`, `d`, `s` and `g`.
pub proof fn lemma_engine_keys()
    ensures
        crate::steno::steno_id("*"@) == Some(UNDO),
        crate::steno::steno_id("z"@) == Some(default_folding()[0]),
        crate::steno::steno_id("d"@) == Some(default_folding()[1]),
        crate::steno::steno_id("s"@) == Some(default_folding()[2]),
        crate::steno::steno_id("g"@) == Some(default_folding()[3]),
{
    crate::steno::lemma_order();
    assert(1u32 << 12 == 0x1000 && 1u32 << 24 == 0x100_0000 && 1u32 << 23 == 0x80_0000 && 1u32
        << 22 == 0x40_0000 && 1u32 << 20 == 0x10_0000) by (bit_vector);
    reveal_strlit("*");
    reveal_strlit("z");
    reveal_strlit("d");
    reveal_strlit("s");
    reveal_strlit("g");
    crate::steno::lemma_key_id(12);
    crate::steno::lemma_key_id(24);
    crate::steno::lemma_key_id(23);
    crate::steno::lemma_key_id(22);
    crate::steno::lemma_key_id(20);
    assert("*"@ =~= seq![crate::steno::steno_order()[12]]);
    assert("z"@ =~= seq![crate::steno::steno_order()[24]]);
    assert("d"@ =~= seq![crate::steno::steno_order()[23]]);
    assert("s"@ =~= seq![crate::steno::steno_order()[22]]);
    assert("g"@ =~= seq![crate::steno::steno_order()[20]]);
}

} // verus!
