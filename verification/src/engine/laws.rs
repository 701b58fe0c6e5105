//! What holds of the engine over a whole run of strokes.

use crate::engine::dictionary::{lemma_tree_entry_stable, Dict, Dictionary};
use crate::engine::output::orthography::RuleView;
use crate::engine::output::annotated;
use crate::engine::{
    common_prefix, complete_run, consumed_sum, first_hit, flush_start, folded_lookup, greedy, kept_strokes,
    kept_translations, lemma_common_prefix, lemma_consumed_sum_annotated, lemma_consumed_sum_concat,
    lemma_consumed_sum_one, lemma_greedy_covers, lemma_lookup_entry, lookup_entry, outcome,
    placeholder, window_start, TranslationView, BUFFER_SIZE, UNDO,
};
use vstd::prelude::*;

verus! {

/// Whether at most one of the dictionaries is a tree.
pub open spec fn one_tree(dicts: Seq<Dict>) -> bool {
    forall|i: int, j: int|
        0 <= i < j < dicts.len() ==> !(#[trigger] dicts[i] is Tree
            && #[trigger] dicts[j] is Tree)
}

/// Whether a complete answer of the dictionaries stays the answer when a
/// stroke is added to the run.
pub open spec fn answers_stable(dicts: Seq<Dict>) -> bool {
    forall|strokes: Seq<u32>, x: u32|
        (first_hit(dicts, 0, strokes) matches Some(t) && t.complete) ==> #[trigger] first_hit(
            dicts,
            0,
            strokes.push(x),
        ) == first_hit(dicts, 0, strokes)
}

/// An answer comes from one of the dictionaries asked.
pub proof fn lemma_first_hit_source(dicts: Seq<Dict>, k: nat, strokes: Seq<u32>) -> (j: int)
    requires
        first_hit(dicts, k, strokes) is Some,
    ensures
        k <= j < dicts.len(),
        dicts[j].entry(strokes) == first_hit(dicts, k, strokes),
    decreases dicts.len() - k,
{
    if dicts[k as int].entry(strokes) is Some {
        k as int
    } else {
        lemma_first_hit_source(dicts, k + 1, strokes)
    }
}

/// Where at most one dictionary is a tree, a complete answer stays the
/// answer when a stroke is added to the run.
pub proof fn lemma_first_hit_stable(dicts: Seq<Dict>, k: nat, strokes: Seq<u32>, x: u32)
    requires
        one_tree(dicts),
        first_hit(dicts, k, strokes) matches Some(t) && t.complete,
    ensures
        first_hit(dicts, k, strokes.push(x)) == first_hit(dicts, k, strokes),
    decreases dicts.len() - k,
{
    let here = dicts[k as int];
    match here.entry(strokes) {
        Some(t) => {
            match here {
                Dict::Tree(d) => {
                    lemma_tree_entry_stable(d@, strokes, x);
                },
                Dict::Numbers(d) => {},
            }
        },
        None => {
            let j = lemma_first_hit_source(dicts, k + 1, strokes);
            assert(dicts[j] is Tree);
            assert(here is Numbers);
            here.entry_in_range(strokes);
            dicts[j].entry_in_range(strokes);
            assert(strokes.len() > 0);
            assert(strokes.push(x)[0] == strokes[0]);
            lemma_first_hit_stable(dicts, k + 1, strokes, x);
        },
    }
}

/// Dictionaries of which at most one is a tree have stable answers.
pub proof fn lemma_one_tree_stable(dicts: Seq<Dict>)
    requires
        one_tree(dicts),
    ensures
        answers_stable(dicts),
{
    assert forall|strokes: Seq<u32>, x: u32|
        (first_hit(dicts, 0, strokes) matches Some(t) && t.complete) implies #[trigger] first_hit(
        dicts,
        0,
        strokes.push(x),
    ) == first_hit(dicts, 0, strokes) by {
        lemma_first_hit_stable(dicts, 0, strokes, x);
    }
}

/// Where the answers are stable, a complete answer that was not folded
/// stays the answer of the lookup when a stroke is added to the run.
pub proof fn lemma_lookup_stable(dicts: Seq<Dict>, folding: Seq<u32>, strokes: Seq<u32>, x: u32)
    requires
        answers_stable(dicts),
        lookup_entry(dicts, folding, strokes).0 matches Some(t) && t.complete,
        lookup_entry(dicts, folding, strokes).1 is None,
    ensures
        lookup_entry(dicts, folding, strokes.push(x)) == lookup_entry(dicts, folding, strokes),
{
    lemma_folded_lookup_pairs(dicts, folding, 0, strokes);
    assert(first_hit(dicts, 0, strokes.push(x)) == first_hit(dicts, 0, strokes));
}

/// A folded answer comes with its suffix translation.
pub proof fn lemma_folded_lookup_pairs(
    dicts: Seq<Dict>,
    folding: Seq<u32>,
    k: nat,
    strokes: Seq<u32>,
)
    ensures
        folded_lookup(dicts, folding, k, strokes).0 is Some == folded_lookup(
            dicts,
            folding,
            k,
            strokes,
        ).1 is Some,
    decreases folding.len() - k,
{
    if k < folding.len() {
        lemma_folded_lookup_pairs(dicts, folding, k + 1, strokes);
    }
}

/// The greedy translations from a place on where a translation starts that
/// covers a stroke are the greedy translations of the strokes left.
pub proof fn lemma_greedy_suffix(dicts: Seq<Dict>, folding: Seq<u32>, strokes: Seq<u32>, a: nat)
    requires
        a <= greedy(dicts, folding, strokes).len(),
        a == 0 || a == greedy(dicts, folding, strokes).len() || greedy(
            dicts,
            folding,
            strokes,
        )[a as int].consumed > 0,
    ensures
        consumed_sum(greedy(dicts, folding, strokes).take(a as int)) <= strokes.len(),
        greedy(dicts, folding, strokes).skip(a as int) == greedy(
            dicts,
            folding,
            strokes.skip(consumed_sum(greedy(dicts, folding, strokes).take(a as int)) as int),
        ),
    decreases strokes.len(),
{
    let g = greedy(dicts, folding, strokes);
    if a == 0 {
        assert(g.take(0) =~= Seq::<TranslationView>::empty());
        assert(g.skip(0) =~= g);
        assert(strokes.skip(0) =~= strokes);
    } else {
        lemma_lookup_entry(dicts, folding, strokes);
        let found = lookup_entry(dicts, folding, strokes);
        let unit = match found {
            (Some(t), Some(st)) => seq![t, st],
            (Some(t), None) => seq![t],
            (None, _) => seq![placeholder(strokes[0])],
        };
        let c = match found {
            (Some(t), _) => t.consumed,
            (None, _) => 1,
        };
        let left = strokes.skip(c as int);
        let rest = greedy(dicts, folding, left);
        assert(g == unit + rest);
        lemma_greedy_covers(dicts, folding, left);
        if unit.len() == 2 && a == 1 {
            assert(g[1] == unit[1]);
            assert(false);
        }
        let b = (a - unit.len()) as nat;
        assert(b == rest.len() || g[a as int] == rest[b as int]);
        lemma_greedy_suffix(dicts, folding, left, b);
        assert(g.skip(a as int) =~= rest.skip(b as int));
        assert(g.take(a as int) =~= unit + rest.take(b as int));
        lemma_consumed_sum_concat(unit, rest.take(b as int));
        lemma_unit_sum(dicts, folding, strokes);
        assert(left.skip(consumed_sum(rest.take(b as int)) as int) =~= strokes.skip(
            (c + consumed_sum(rest.take(b as int))) as int,
        ));
    }
}

/// The first greedy step covers what its main translation covers.
pub proof fn lemma_unit_sum(dicts: Seq<Dict>, folding: Seq<u32>, strokes: Seq<u32>)
    requires
        strokes.len() > 0,
    ensures
        match lookup_entry(dicts, folding, strokes) {
            (Some(t), Some(st)) => consumed_sum(seq![t, st]) == t.consumed,
            (Some(t), None) => consumed_sum(seq![t]) == t.consumed,
            (None, _) => consumed_sum(seq![placeholder(strokes[0])]) == 1,
        },
{
    lemma_lookup_entry(dicts, folding, strokes);
    match lookup_entry(dicts, folding, strokes) {
        (Some(t), Some(st)) => {
            lemma_consumed_sum_one(t);
            lemma_consumed_sum_one(st);
            lemma_consumed_sum_concat(seq![t], seq![st]);
            assert(seq![t] + seq![st] =~= seq![t, st]);
        },
        (Some(t), None) => {
            lemma_consumed_sum_one(t);
        },
        (None, _) => {
            lemma_consumed_sum_one(placeholder(strokes[0]));
        },
    }
}

/// Where the answers are stable, the greedy translations before the last
/// of the leading complete ones do not change when a stroke is
/// added to the run, and what follows them is the greedy translation of the
/// strokes that they do not cover, with the stroke added.
pub proof fn lemma_greedy_frozen(
    dicts: Seq<Dict>,
    folding: Seq<u32>,
    strokes: Seq<u32>,
    x: u32,
    a: nat,
)
    requires
        answers_stable(dicts),
        a < complete_run(greedy(dicts, folding, strokes), 0),
    ensures
        consumed_sum(greedy(dicts, folding, strokes).take(a as int)) <= strokes.len(),
        greedy(dicts, folding, strokes.push(x)) == greedy(dicts, folding, strokes).take(a as int)
            + greedy(
            dicts,
            folding,
            strokes.skip(consumed_sum(greedy(dicts, folding, strokes).take(a as int)) as int).push(
                x,
            ),
        ),
    decreases strokes.len(),
{
    let g = greedy(dicts, folding, strokes);
    lemma_complete_run(g, 0);
    if a == 0 {
        assert(g.take(0) =~= Seq::<TranslationView>::empty());
        assert(strokes.skip(0) =~= strokes);
        assert(g.take(0) + greedy(dicts, folding, strokes.push(x)) =~= greedy(
            dicts,
            folding,
            strokes.push(x),
        ));
    } else {
        assert(g.len() >= 2);
        assert(strokes.len() > 0);
        lemma_lookup_entry(dicts, folding, strokes);
        let found = lookup_entry(dicts, folding, strokes);
        assert(g[0].complete && g[0].consumed > 0);
        assert(g[1].complete && g[1].consumed > 0);
        match found {
            (Some(t), Some(st)) => {
                assert(g[1] == st);
                assert(false);
            },
            (Some(t), None) => {
                let c = t.consumed;
                let left = strokes.skip(c as int);
                let rest = greedy(dicts, folding, left);
                assert(g == seq![t] + rest);
                assert(g[0] == t);
                lemma_lookup_stable(dicts, folding, strokes, x);
                assert(strokes.push(x).skip(c as int) =~= left.push(x));
                assert(greedy(dicts, folding, strokes.push(x)) == seq![t] + greedy(
                    dicts,
                    folding,
                    left.push(x),
                ));
                assert(rest =~= g.skip(1));
                lemma_complete_run_skip(g, 0);
                lemma_greedy_frozen(dicts, folding, left, x, (a - 1) as nat);
                assert(g.take(a as int) =~= seq![t] + rest.take(a - 1));
                lemma_consumed_sum_concat(seq![t], rest.take(a - 1));
                lemma_consumed_sum_one(t);
                lemma_greedy_covers(dicts, folding, left);
                assert(left.skip(consumed_sum(rest.take(a - 1)) as int) =~= strokes.skip(
                    (c + consumed_sum(rest.take(a - 1))) as int,
                ));
            },
            (None, _) => {
                assert(g[0] == placeholder(strokes[0]));
                assert(false);
            },
        }
    }
}

/// The leading run of complete translations ends within the translations,
/// and each translation in it is complete and covers a stroke.
pub proof fn lemma_complete_run(ts: Seq<TranslationView>, k: nat)
    requires
        k <= ts.len(),
    ensures
        k <= complete_run(ts, k) <= ts.len(),
        forall|i: int|
            k <= i < complete_run(ts, k) ==> (#[trigger] ts[i]).complete && ts[i].consumed > 0,
    decreases ts.len() - k,
{
    if k < ts.len() && ts[k as int].complete && ts[k as int].consumed > 0 {
        lemma_complete_run(ts, k + 1);
    }
}

/// The leading run of the translations behind the first is that of all of
/// them, less the first, where the first is in the run.
pub proof fn lemma_complete_run_skip(ts: Seq<TranslationView>, k: nat)
    requires
        ts.len() > 0,
        ts[0].complete && ts[0].consumed > 0,
        k <= ts.len() - 1,
    ensures
        complete_run(ts, k + 1) == complete_run(ts.skip(1), k) + 1,
    decreases ts.len() - k,
{
    let tail = ts.skip(1);
    if k < tail.len() && tail[k as int].complete && tail[k as int].consumed > 0 {
        lemma_complete_run_skip(ts, k + 1);
    }
}

/// The silent flags do not bear on which translations are complete.
pub proof fn lemma_complete_run_annotated(ts: Seq<TranslationView>, k: nat)
    ensures
        complete_run(annotated(ts), k) == complete_run(ts, k),
    decreases ts.len() - k,
{
    if k < ts.len() && ts[k as int].complete && ts[k as int].consumed > 0 {
        lemma_complete_run_annotated(ts, k + 1);
    }
}

/// Where the buffer is cut, a translation starts that covers a stroke,
/// unless nothing or all is kept.
pub proof fn lemma_flush_start(ts: Seq<TranslationView>, at: nat, n: nat)
    requires
        at <= ts.len(),
    ensures
        flush_start(ts, at, n) <= at,
        at > 0 && n < BUFFER_SIZE ==> flush_start(ts, at, n) < at,
        flush_start(ts, at, n) == at || flush_start(ts, at, n) == 0 || ts[flush_start(
            ts,
            at,
            n,
        ) as int].consumed > 0,
    decreases at,
{
    if at > 0 && n < BUFFER_SIZE {
        lemma_flush_start(ts, (at - 1) as nat, n + ts[at - 1].consumed);
    }
}

/// Where the engine holds the greedy translations of its strokes, it still
/// does after the buffer is flushed.
pub proof fn lemma_flush_keeps_greedy(dicts: Seq<Dict>, folding: Seq<u32>, strokes: Seq<u32>)
    ensures
        kept_translations(annotated(greedy(dicts, folding, strokes))) == annotated(
            greedy(
                dicts,
                folding,
                kept_strokes(strokes, annotated(greedy(dicts, folding, strokes))),
            ),
        ),
{
    let g = greedy(dicts, folding, strokes);
    let ts = annotated(g);
    let a = flush_start(ts, ts.len(), 0);
    lemma_flush_start(ts, ts.len(), 0);
    lemma_greedy_suffix(dicts, folding, strokes, a);
    lemma_greedy_covers(dicts, folding, strokes);
    assert(ts.skip(a as int) =~= annotated(g.skip(a as int)));
    lemma_consumed_sum_annotated(g.skip(a as int));
    assert(g =~= g.take(a as int) + g.skip(a as int));
    lemma_consumed_sum_concat(g.take(a as int), g.skip(a as int));
}

/// Strokes taken in one by one leave the engine with the translations that
/// the whole run of strokes has when it is translated at once.
///
/// This holds for every stroke but the undo stroke, of an engine whose
/// dictionaries give stable answers: where the engine holds the greedy
/// translations of its strokes, as the formatter marks them, it does so
/// again after the stroke. Dictionaries of which at most one is a tree give
/// stable answers.
pub proof fn law_incremental_is_batch(
    dicts: Seq<Dict>,
    folding: Seq<u32>,
    rules: Seq<RuleView>,
    words: Set<Seq<char>>,
    strokes: Seq<u32>,
    stroke: u32,
)
    requires
        answers_stable(dicts),
        stroke != UNDO,
    ensures
        ({
            let after = outcome(
                dicts,
                folding,
                rules,
                words,
                strokes,
                annotated(greedy(dicts, folding, strokes)),
                stroke,
            );
            after.translations == annotated(greedy(dicts, folding, after.strokes))
        }),
{
    let before = annotated(greedy(dicts, folding, strokes));
    let held = kept_strokes(strokes, before);
    let h = greedy(dicts, folding, held);
    let kept = annotated(h);
    lemma_flush_keeps_greedy(dicts, folding, strokes);
    assert(kept_translations(before) == kept);
    lemma_complete_run_annotated(h, 0);
    lemma_complete_run(h, 0);
    let start = window_start(kept);
    let covered = consumed_sum(kept.skip(start as int));
    let next = held.push(stroke);
    lemma_greedy_covers(dicts, folding, held);
    assert(kept.skip(start as int) =~= annotated(h.skip(start as int)));
    lemma_consumed_sum_annotated(h.skip(start as int));
    assert(h =~= h.take(start as int) + h.skip(start as int));
    lemma_consumed_sum_concat(h.take(start as int), h.skip(start as int));
    let front = consumed_sum(h.take(start as int));
    assert(next.skip(next.len() - (covered + 1)) =~= held.skip(front as int).push(stroke));
    let fresh = greedy(dicts, folding, held.skip(front as int).push(stroke));
    if complete_run(h, 0) > 0 {
        lemma_greedy_frozen(dicts, folding, held, stroke, start);
    } else {
        assert(h.take(0) =~= Seq::<TranslationView>::empty());
        assert(held.skip(0) =~= held);
        assert(h.take(0) + fresh =~= fresh);
    }
    assert(greedy(dicts, folding, next) == h.take(start as int) + fresh);
    assert(annotated(h.take(start as int) + fresh) =~= kept.take(start as int) + annotated(
        fresh,
    ));
}

/// What is returned of two runs of actions is what is left of each behind
/// the part that both start with: up to there the two agree, and the two
/// remainders differ in their first action unless one of them is empty.
pub proof fn law_diff_trim<A>(a: Seq<A>, b: Seq<A>)
    ensures
        ({
            let shared = common_prefix(a, b, 0) as int;
            &&& 0 <= shared <= a.len()
            &&& shared <= b.len()
            &&& a.take(shared) == b.take(shared)
            &&& a == a.take(shared) + a.skip(shared)
            &&& b == b.take(shared) + b.skip(shared)
            &&& a.skip(shared).len() == 0 || b.skip(shared).len() == 0 || a.skip(shared)[0]
                != b.skip(shared)[0]
        }),
{
    let shared = common_prefix(a, b, 0) as int;
    lemma_common_prefix(a, b, 0);
    assert(a.take(shared) =~= b.take(shared));
    assert(a =~= a.take(shared) + a.skip(shared));
    assert(b =~= b.take(shared) + b.skip(shared));
}

/// The buffer is bounded: the translations kept, but for the first of them,
/// cover fewer than `BUFFER_SIZE` strokes.
pub proof fn law_buffer_bound(ts: Seq<TranslationView>)
    ensures
        kept_translations(ts).len() > 0 ==> consumed_sum(kept_translations(ts).skip(1))
            < BUFFER_SIZE,
{
    lemma_flush_bound(ts, ts.len(), 0);
    assert(ts.skip(ts.len() as int) =~= Seq::<TranslationView>::empty());
    let a = flush_start(ts, ts.len(), 0);
    lemma_flush_start(ts, ts.len(), 0);
    if a < ts.len() {
        assert(ts.skip(a as int).skip(1) =~= ts.skip(a as int + 1));
    }
}

/// Behind the translation at which the buffer is cut, fewer than
/// `BUFFER_SIZE` strokes are covered.
pub proof fn lemma_flush_bound(ts: Seq<TranslationView>, at: nat, n: nat)
    requires
        at <= ts.len(),
        n == consumed_sum(ts.skip(at as int)),
        at == ts.len() || consumed_sum(ts.skip(at as int + 1)) < BUFFER_SIZE,
    ensures
        flush_start(ts, at, n) < ts.len() ==> consumed_sum(
            ts.skip(flush_start(ts, at, n) as int + 1),
        )
            < BUFFER_SIZE,
    decreases at,
{
    if at > 0 && n < BUFFER_SIZE {
        let head = seq![ts[at - 1]];
        assert(ts.skip(at - 1) =~= head + ts.skip(at as int));
        lemma_consumed_sum_concat(head, ts.skip(at as int));
        lemma_consumed_sum_one(ts[at - 1]);
        lemma_flush_bound(ts, (at - 1) as nat, n + ts[at - 1].consumed);
    }
}

/// Where the walk of the flush stops before the first translation, it has
/// counted `BUFFER_SIZE` strokes or more.
pub proof fn lemma_flush_floor(ts: Seq<TranslationView>, at: nat, n: nat)
    requires
        at <= ts.len(),
        n == consumed_sum(ts.skip(at as int)),
    ensures
        flush_start(ts, at, n) > 0 ==> consumed_sum(ts.skip(flush_start(ts, at, n) as int))
            >= BUFFER_SIZE,
    decreases at,
{
    if at > 0 && n < BUFFER_SIZE {
        let head = seq![ts[at - 1]];
        assert(ts.skip(at - 1) =~= head + ts.skip(at as int));
        lemma_consumed_sum_concat(head, ts.skip(at as int));
        lemma_consumed_sum_one(ts[at - 1]);
        lemma_flush_floor(ts, (at - 1) as nat, n + ts[at - 1].consumed);
    }
}

/// Where the flush drops a translation, what it keeps covers `BUFFER_SIZE`
/// strokes or more; a history that covers fewer is kept whole.
pub proof fn law_buffer_floor(ts: Seq<TranslationView>)
    ensures
        kept_translations(ts) != ts ==> consumed_sum(kept_translations(ts)) >= BUFFER_SIZE,
        consumed_sum(ts) < BUFFER_SIZE ==> kept_translations(ts) == ts,
{
    let a = flush_start(ts, ts.len(), 0);
    assert(ts.skip(ts.len() as int) =~= Seq::<TranslationView>::empty());
    lemma_flush_floor(ts, ts.len(), 0);
    lemma_flush_start(ts, ts.len(), 0);
    assert(ts.skip(0) =~= ts);
    assert(ts =~= ts.take(a as int) + ts.skip(a as int));
    lemma_consumed_sum_concat(ts.take(a as int), ts.skip(a as int));
}

/// A stroke other than the undo stroke is added to the strokes held, and
/// none of them is dropped while fewer than `BUFFER_SIZE` are held.
pub proof fn law_short_history_is_kept(
    dicts: Seq<Dict>,
    folding: Seq<u32>,
    rules: Seq<RuleView>,
    words: Set<Seq<char>>,
    strokes: Seq<u32>,
    translations: Seq<TranslationView>,
    stroke: u32,
)
    requires
        consumed_sum(translations) == strokes.len(),
        strokes.len() < BUFFER_SIZE,
        stroke != UNDO,
    ensures
        outcome(dicts, folding, rules, words, strokes, translations, stroke).strokes
            == strokes.push(stroke),
{
    law_buffer_floor(translations);
    assert(strokes.skip(0) =~= strokes);
}

} // verus!
