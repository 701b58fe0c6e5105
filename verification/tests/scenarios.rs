use moreover::engine::dictionary::{Dictionary, NumbersDict};
use moreover::engine::output::orthography::Orthography;
use moreover::engine::output::translations_to_actions;
use moreover::engine::{diff, Action, Engine, Key, Translation, BUFFER_SIZE, UNDO};
use moreover::steno::steno_to_id;

fn text(s: &str) -> Vec<Action> {
    s.chars().map(|c| Action::Text(c.to_string())).collect()
}

fn engine_with(dict: &str) -> Engine {
    let mut engine = Engine::new();
    engine.add_dict("main.txt", dict).unwrap();
    engine
}

fn raws(engine: &Engine) -> Vec<String> {
    engine.translations().iter().map(|t| t.raw.clone()).collect()
}

fn covered(engine: &Engine) -> usize {
    engine.translations().iter().map(|t| t.consumed).sum()
}

#[test]
fn single_word() {
    let mut engine = engine_with("KAT\tcat\n");
    let (del, add) = engine.process_stroke(steno_to_id("KAT"));
    assert_eq!(del, vec![]);
    assert_eq!(add, text(" cat"));
}

#[test]
fn retranslation_over_two_strokes() {
    let mut engine = engine_with("KAT\tcat\n\tHAT\tcategory\n");
    let (del, add) = engine.process_stroke(steno_to_id("KAT"));
    assert_eq!(del, vec![]);
    assert_eq!(add, text(" cat"));
    let (del, add) = engine.process_stroke(steno_to_id("HAT"));
    assert_eq!(del, vec![]);
    assert_eq!(add, text("egory"));
    assert_eq!(raws(&engine), vec!["category"]);
    assert_eq!(engine.translations()[0].consumed, 2);
}

#[test]
fn retranslation_takes_back_what_differs() {
    let mut engine = engine_with("KAT\tcat\n\tHAT\tdogma\n");
    engine.process_stroke(steno_to_id("KAT"));
    let (del, add) = engine.process_stroke(steno_to_id("HAT"));
    assert_eq!(del, text("cat"));
    assert_eq!(add, text("dogma"));
}

#[test]
fn undo_goes_back_one_stroke() {
    let mut engine = engine_with("KAT\tcat\n\tHAT\tcategory\n");
    engine.process_stroke(steno_to_id("KAT"));
    engine.process_stroke(steno_to_id("HAT"));
    let (del, add) = engine.process_stroke(steno_to_id("*"));
    // What the two tails share, " cat", is neither taken back nor typed.
    assert_eq!(del, text("egory"));
    assert_eq!(add, vec![]);
    assert_eq!(engine.strokes(), &vec![steno_to_id("KAT")]);
    assert_eq!(raws(&engine), vec!["cat"]);
    assert_eq!(engine.translations()[0].consumed, 1);
    assert!(engine.is_balanced());
}

#[test]
fn undo_of_the_only_stroke() {
    let mut engine = engine_with("KAT\tcat\n");
    engine.process_stroke(steno_to_id("KAT"));
    let (del, add) = engine.process_stroke(UNDO);
    assert_eq!(del, text(" cat"));
    assert_eq!(add, vec![]);
    assert!(engine.strokes().is_empty());
    assert!(engine.translations().is_empty());
}

#[test]
fn undo_without_strokes_does_nothing() {
    let mut engine = engine_with("KAT\tcat\n");
    let (del, add) = engine.process_stroke(UNDO);
    assert_eq!((del, add), (vec![], vec![]));
    assert!(engine.strokes().is_empty());
    assert!(engine.translations().is_empty());
}

#[test]
fn undo_swallows_silent_translations() {
    let mut engine = engine_with("KAT\tcat\n\tS\tcats\nKPA\t{-|}\n");
    engine.process_stroke(steno_to_id("KAT"));
    engine.process_stroke(steno_to_id("KPA"));
    assert_eq!(raws(&engine), vec!["cat", "{-|}"]);
    assert!(engine.translations()[1].non_undoable);
    let (del, add) = engine.process_stroke(UNDO);
    assert_eq!(del, text(" cat"));
    assert_eq!(add, vec![]);
    assert!(engine.strokes().is_empty());
    assert!(engine.is_balanced());
}

#[test]
fn undo_stroke_is_the_star() {
    assert_eq!(UNDO, steno_to_id("*"));
}

#[test]
fn numbers_without_other_dictionary() {
    let dict = NumbersDict::new();
    let t = dict.get(&[steno_to_id("#STA")]).unwrap();
    assert_eq!(t.raw, "{&125}");
    assert_eq!(t.consumed, 1);
    let mut engine = Engine::new();
    let (del, add) = engine.process_stroke(steno_to_id("#STA"));
    assert_eq!(del, vec![]);
    assert_eq!(add, text(" 125"));
    let (del, add) = engine.process_stroke(steno_to_id("#O"));
    assert_eq!(del, vec![]);
    assert_eq!(add, text("0"));
}

#[test]
fn punctuation_capitalizes_next_stroke() {
    let mut engine = engine_with("KAT\thello\nPeR\t{.}\nTPAOD\tfood\n");
    let (_, add) = engine.process_stroke(steno_to_id("KAT"));
    assert_eq!(add, text(" hello"));
    let (del, add) = engine.process_stroke(steno_to_id("PeR"));
    assert_eq!(del, vec![]);
    assert_eq!(add, text("."));
    let (del, add) = engine.process_stroke(steno_to_id("TPAOD"));
    assert_eq!(del, vec![]);
    assert_eq!(add, text(" Food"));
}

#[test]
fn key_command_clicks_key() {
    let mut engine = engine_with("KAT\t{#Return}\n");
    let (_, add) = engine.process_stroke(steno_to_id("KAT"));
    assert_eq!(add, vec![Action::KeyClick(Key::Return)]);
}

#[test]
fn untranslated_stroke_is_its_number() {
    let mut engine = engine_with("KAT\tcat\n");
    let (_, add) = engine.process_stroke(steno_to_id("HAT"));
    assert_eq!(add, text(&format!(" {}", steno_to_id("HAT"))));
    assert_eq!(raws(&engine), vec![steno_to_id("HAT").to_string()]);
    let mut engine = Engine::new();
    engine.process_stroke(7);
    assert_eq!(raws(&engine), vec!["7"]);
    engine.process_stroke(4_000_000_000);
    assert_eq!(raws(&engine), vec!["7", "4000000000"]);
    engine.process_stroke(10);
    assert_eq!(raws(&engine), vec!["7", "4000000000", "10"]);
}

#[test]
fn stroke_zero_is_translated_like_any_other() {
    let mut engine = Engine::new();
    let (_, add) = engine.process_stroke(0);
    assert_eq!(add, text(" 0"));
}

#[test]
fn suffix_is_folded() {
    let mut engine = engine_with("KAT\tcat\ns\t{^s}\n");
    let stroke = steno_to_id("KAT") | steno_to_id("s");
    let (found, suffix) = engine.lookup(&[stroke]);
    assert_eq!(found.unwrap().raw, "cat");
    let suffix = suffix.unwrap();
    assert_eq!((suffix.raw.as_str(), suffix.consumed), ("{^s}", 0));
    let (_, add) = engine.process_stroke(stroke);
    assert_eq!(add, text(" cats"));
    assert_eq!(raws(&engine), vec!["cat", "{^s}"]);
    assert_eq!(covered(&engine), 1);
    assert!(engine.is_balanced());
}

#[test]
fn suffix_keys_are_tried_in_order() {
    // z is tried before s.
    let mut engine = engine_with("KAT\tcat\ns\t{^s}\nz\t{^z}\nKATs\tcast\n");
    let stroke = steno_to_id("KAT") | steno_to_id("s") | steno_to_id("z");
    engine.process_stroke(stroke);
    assert_eq!(raws(&engine), vec!["cast", "{^z}"]);
}

#[test]
fn folding_needs_a_translation_of_the_suffix() {
    let mut engine = engine_with("KAT\tcat\n");
    let stroke = steno_to_id("KAT") | steno_to_id("s");
    assert_eq!(engine.lookup(&[stroke]), (None, None));
    engine.process_stroke(stroke);
    assert_eq!(raws(&engine), vec![stroke.to_string()]);
}

#[test]
fn folding_tries_shorter_runs() {
    let engine = engine_with("KAT\tcat\ns\t{^s}\n");
    let first = steno_to_id("KAT") | steno_to_id("s");
    let (found, suffix) = engine.lookup(&[first, steno_to_id("HAT")]);
    assert_eq!(found.unwrap().consumed, 1);
    assert_eq!(suffix.unwrap().raw, "{^s}");
}

#[test]
fn direct_answer_wins_over_folding() {
    let engine = engine_with("KAT\tcat\ns\t{^s}\nKATs\tcast\n");
    let stroke = steno_to_id("KAT") | steno_to_id("s");
    let (found, suffix) = engine.lookup(&[stroke]);
    assert_eq!(found.unwrap().raw, "cast");
    assert_eq!(suffix, None);
}

#[test]
fn later_dictionary_is_asked_first() {
    let mut engine = engine_with("KAT\tcat\nHAT\that\n");
    engine.add_dict("second.txt", "KAT\tkitten\n").unwrap();
    assert_eq!(engine.lookup_helper(&[steno_to_id("KAT")]).unwrap().raw, "kitten");
    assert_eq!(engine.lookup_helper(&[steno_to_id("HAT")]).unwrap().raw, "hat");
    assert_eq!(engine.lookup_helper(&[steno_to_id("#S")]).unwrap().raw, "{&1}");
    assert_eq!(engine.lookup_helper(&[steno_to_id("S")]), None);
}

#[test]
fn only_text_dictionaries_are_added() {
    let mut engine = Engine::new();
    assert_eq!(engine.add_dict("main.json", "KAT\tcat\n"), Ok(()));
    assert_eq!(engine.add_dict("maintxt", "KAT\tcat\n"), Ok(()));
    assert_eq!(engine.add_dict("main.txt.bak", "KAT\tcat\n"), Ok(()));
    assert_eq!(engine.lookup_helper(&[steno_to_id("KAT")]), None);
    assert_eq!(engine.add_dict("dir.d/main.txt", "KAT\tcat\n"), Ok(()));
    assert_eq!(engine.lookup_helper(&[steno_to_id("KAT")]).unwrap().raw, "cat");
    let mut engine = Engine::new();
    assert_eq!(engine.add_dict("txt", "KAT\tcat\n"), Ok(()));
    assert_eq!(engine.lookup_helper(&[steno_to_id("KAT")]).unwrap().raw, "cat");
}

#[test]
fn dictionary_that_fails_to_load_is_not_added() {
    let mut engine = engine_with("KAT\tcat\n");
    let err = engine.add_dict("bad.txt", "KAT\tkitten\nHAT\n").unwrap_err();
    assert_eq!(err.line, 2);
    assert_eq!(engine.lookup_helper(&[steno_to_id("KAT")]).unwrap().raw, "cat");
    assert_eq!(engine.add_dict("bad.json", "HAT\n"), Ok(()));
}

#[test]
fn greedy_translation_takes_longest_first() {
    let engine = engine_with("KAT\tcat\n\tHAT\tcategory\nHAT\that\n");
    let ids: Vec<u32> = ["KAT", "HAT", "HAT", "S", "KAT"].iter().map(|s| steno_to_id(s)).collect();
    let ts = engine.translate_strokes(&ids);
    let got: Vec<(String, usize)> = ts.iter().map(|t| (t.raw.clone(), t.consumed)).collect();
    assert_eq!(
        got,
        vec![
            ("category".to_string(), 2),
            ("hat".to_string(), 1),
            (steno_to_id("S").to_string(), 1),
            ("cat".to_string(), 1),
        ]
    );
    assert_eq!(engine.translate_strokes(&[]), vec![]);
}

#[test]
fn translations_cover_the_strokes() {
    let mut engine = engine_with("KAT\tcat\n\tHAT\tcategory\nHAT\that\ns\t{^s}\nKPA\t{-|}\n");
    let strokes = ["KAT", "HAT", "HATs", "KPA", "*", "S", "KAT", "*", "*", "KAT", "HAT", "#S"];
    for s in strokes {
        engine.process_stroke(steno_to_id(s));
        assert_eq!(covered(&engine), engine.strokes().len());
        assert!(engine.is_balanced());
    }
}

#[test]
fn undo_past_the_tail_leaves_strokes_uncovered() {
    // Three complete translations, the last two silent: the undo takes
    // three strokes, and the tail that is translated anew covers one.
    let mut engine = engine_with("KAT\tcat\nKPA\t{-|}\n");
    engine.process_stroke(steno_to_id("KAT"));
    engine.process_stroke(steno_to_id("KPA"));
    engine.process_stroke(steno_to_id("KPA"));
    assert!(engine.is_balanced());
    engine.process_stroke(UNDO);
    assert!(engine.strokes().is_empty());
    assert_eq!(raws(&engine), vec!["cat", "{-|}"]);
    assert!(!engine.is_balanced());
}

#[test]
fn one_by_one_is_all_at_once() {
    let dict = "KAT\tcat\n\tHAT\tcategory\n\t\tS\tcategories\nHAT\that\ns\t{^s}\nKPA\t{-|}\nS\tis\n";
    let mut engine = engine_with(dict);
    let strokes = ["KAT", "HAT", "HATs", "KPA", "S", "KAT", "KAT", "HAT", "S", "#S", "K", "HAT"];
    let mut ids = vec![];
    for s in strokes {
        ids.push(steno_to_id(s));
        engine.process_stroke(steno_to_id(s));
        let ortho = Orthography::english();
        let mut at_once = engine.translate_strokes(&ids);
        translations_to_actions(&ortho, &mut at_once);
        assert_eq!(engine.translations(), &at_once);
    }
}

#[test]
fn two_trees_can_differ_from_all_at_once() {
    let mut engine = engine_with("A\ta\nO\to\n");
    engine.add_dict("first.txt", "A\t\n\tO\t\n\t\tS\taos\n").unwrap();
    let ids: Vec<u32> = ["A", "O", "S"].iter().map(|s| steno_to_id(s)).collect();
    for id in &ids {
        engine.process_stroke(*id);
    }
    assert_eq!(raws(&engine), vec!["a", "o", steno_to_id("S").to_string().as_str()]);
    let at_once: Vec<String> =
        engine.translate_strokes(&ids).iter().map(|t| t.raw.clone()).collect();
    assert_eq!(at_once, vec!["aos"]);
}

#[test]
fn buffer_keeps_the_last_strokes() {
    let mut engine = engine_with("KAT\tcat\n");
    for _ in 0..(BUFFER_SIZE + 20) {
        engine.process_stroke(steno_to_id("KAT"));
        assert!(engine.is_balanced());
    }
    // The flush at the start of a stroke keeps 500 strokes; the stroke adds one.
    assert_eq!(engine.strokes().len(), BUFFER_SIZE + 1);
    assert_eq!(engine.translations().len(), BUFFER_SIZE + 1);
    engine.flush_buffer();
    assert_eq!(engine.strokes().len(), BUFFER_SIZE);
    assert_eq!(engine.translations().len(), BUFFER_SIZE);
}

#[test]
fn frozen_translations_are_left_alone() {
    let mut engine = engine_with("KAT\tcat\n");
    for _ in 0..5 {
        let (del, add) = engine.process_stroke(steno_to_id("KAT"));
        assert_eq!(del, vec![]);
        assert_eq!(add, text(" cat"));
    }
}

#[test]
fn diff_is_the_common_prefix() {
    assert_eq!(diff(&vec![1, 2, 3], &vec![1, 2, 4]), 2);
    assert_eq!(diff(&vec![1, 2, 3], &vec![1, 2, 3, 4]), 3);
    assert_eq!(diff(&vec![1, 2], &vec![3]), 0);
    assert_eq!(diff::<u8>(&vec![], &vec![]), 0);
    assert_eq!(diff(&vec![1], &vec![]), 0);
    assert_eq!(diff(&text(" cat"), &text(" category")), 4);
}

#[test]
fn returned_actions_share_no_start() {
    let mut engine = engine_with("KAT\tcat\n\tHAT\tcategory\n\tS\tcar\nHAT\that\n");
    for s in ["KAT", "HAT", "*", "S", "HAT", "*", "*", "*"] {
        let (del, add) = engine.process_stroke(steno_to_id(s));
        assert!(del.is_empty() || add.is_empty() || del[0] != add[0]);
    }
}

#[test]
fn new_translation_fields() {
    let t = Translation::new("cat".to_string(), 3);
    assert_eq!(
        t,
        Translation { raw: "cat".to_string(), consumed: 3, complete: false, non_undoable: false }
    );
    assert_eq!(t.clone(), t);
}

#[test]
fn word_list_keeps_joined_word() {
    let mut engine = engine_with("KAT\tartistic\nHAT\t{^ally}\n");
    engine.add_words("Artistically\nother\n");
    engine.process_stroke(steno_to_id("KAT"));
    let (del, add) = engine.process_stroke(steno_to_id("HAT"));
    assert_eq!(del, vec![]);
    assert_eq!(add, text("ally"));
}

#[test]
fn several_trees_with_stable_answers() {
    // Two trees, the first of which answers nothing that the second starts.
    let dict = "KAT\tcat\n\tHAT\tcategory\nHAT\that\n";
    let mut engine = engine_with(dict);
    engine.add_dict("more.txt", "S\tis\nKPA\t{-|}\n").unwrap();
    let mut ids = vec![];
    for s in ["KAT", "S", "HAT", "KPA", "KAT", "HAT", "S", "S"] {
        ids.push(steno_to_id(s));
        engine.process_stroke(steno_to_id(s));
        assert_eq!(engine.strokes(), &ids);
        let at_once = engine.translate_strokes(&ids);
        let got: Vec<(&str, usize, bool)> = engine
            .translations()
            .iter()
            .map(|t| (t.raw.as_str(), t.consumed, t.complete))
            .collect();
        let want: Vec<(&str, usize, bool)> =
            at_once.iter().map(|t| (t.raw.as_str(), t.consumed, t.complete)).collect();
        assert_eq!(got, want);
    }
}

#[test]
fn short_history_is_kept_whole() {
    let mut engine = engine_with("KAT\tcat\n");
    for n in 1..BUFFER_SIZE {
        engine.process_stroke(steno_to_id("KAT"));
        assert_eq!(engine.strokes().len(), n);
    }
    engine.flush_buffer();
    assert_eq!(engine.strokes().len(), BUFFER_SIZE - 1);
    assert_eq!(engine.translations().len(), BUFFER_SIZE - 1);
}

#[test]
fn flush_keeps_at_least_the_buffer() {
    let mut engine = engine_with("KAT\tcat\n\tHAT\tcategory\n\t\tS\tcategories\n");
    for _ in 0..400 {
        for s in ["KAT", "HAT", "S"] {
            engine.process_stroke(steno_to_id(s));
        }
    }
    engine.flush_buffer();
    assert!(covered(&engine) >= BUFFER_SIZE);
    assert!(covered(&engine) < BUFFER_SIZE + 3);
    assert_eq!(covered(&engine), engine.strokes().len());
}
