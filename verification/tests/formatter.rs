use moreover::engine::output::format::{
    ATTACH, CAPITALIZE, COMMAND, GLUE, LOWERCASE, RESET_CAPS, UPPERCASE,
};
use moreover::engine::output::orthography::Orthography;
use moreover::engine::output::{process_command, process_raw, to_action, translations_to_actions};
use moreover::engine::{Action, Key, Translation};

fn text(s: &str) -> Vec<Action> {
    s.chars().map(|c| Action::Text(c.to_string())).collect()
}

fn strings(v: &[&str]) -> Vec<String> {
    v.iter().map(|s| s.to_string()).collect()
}

/// Runs the raws through the formatter from the initial stacks.
fn run(raws: &[&str]) -> (Vec<String>, Vec<i32>, Vec<bool>) {
    let ortho = Orthography::english();
    let mut strings = vec![];
    let mut formats = vec![0];
    let mut silent = vec![];
    for raw in raws {
        silent.push(process_raw(&ortho, raw, &mut strings, &mut formats));
    }
    (strings, formats, silent)
}

fn actions(raws: &[&str]) -> Vec<Action> {
    let ortho = Orthography::english();
    let mut translations: Vec<Translation> =
        raws.iter().map(|r| Translation::new(r.to_string(), 1)).collect();
    translations_to_actions(&ortho, &mut translations)
}

#[test]
fn flag_bits() {
    assert_eq!(
        (COMMAND, ATTACH, GLUE, CAPITALIZE, LOWERCASE, UPPERCASE),
        (1, 2, 4, 8, 16, 32)
    );
    assert_eq!(RESET_CAPS, !56);
}

#[test]
fn plain_text_is_a_fragment() {
    assert_eq!(run(&["cat"]), (strings(&["cat"]), vec![0, 0], vec![false]));
    assert_eq!(actions(&["cat"]), text(" cat"));
    assert_eq!(actions(&["cat", "dog"]), text(" cat dog"));
}

#[test]
fn empty_raw_is_silent() {
    assert_eq!(run(&[""]), (strings(&[]), vec![0], vec![true]));
}

#[test]
fn text_and_directives_alternate() {
    assert_eq!(
        run(&["a{^}b{-|}c"]),
        (strings(&["a", "b", "c"]), vec![0, ATTACH, CAPITALIZE, 0], vec![false])
    );
    assert_eq!(actions(&["a{^}b{-|}c"]), text(" ab C"));
}

#[test]
fn escaped_braces_become_bare() {
    assert_eq!(run(&["a\\{b"]).0, strings(&["a{b"]));
    assert_eq!(run(&["a\\}b"]).0, strings(&["a}b"]));
    assert_eq!(run(&["\\\\{"]).0, strings(&["\\{"]));
    assert_eq!(run(&["\\{x\\}"]), (strings(&["{x}"]), vec![0, 0], vec![false]));
    assert_eq!(run(&["\\{x\\}y"]).0, strings(&["{x}y"]));
    assert_eq!(run(&["\\{^\\}"]), (strings(&["{^}"]), vec![0, 0], vec![false]));
    assert_eq!(actions(&["a", "\\{-|\\}", "b"]), text(" a {-|} b"));
}

#[test]
fn escaped_brace_neither_opens_nor_closes() {
    // The directive runs on to the brace that is not escaped.
    assert_eq!(run(&["{a\\}b}c"]).0, strings(&["a}b", "c"]));
    assert_eq!(run(&["\\{a}b{c}"]).0, strings(&["{a}b", "c"]));
    assert_eq!(run(&["{a\\}"]).0, strings(&["{a}"]));
    assert_eq!(run(&["a\\x{b}"]).0, strings(&["a\\x", "b"]));
}

#[test]
fn escaped_brace_inside_directive_is_bare() {
    assert_eq!(run(&["{^\\}}"]), (strings(&["}"]), vec![ATTACH, 0], vec![false]));
    assert_eq!(actions(&["a", "{^\\{^}", "b"]), text(" a{b"));
    assert_eq!(run(&["{&\\{}"]), (strings(&["{"]), vec![GLUE, 0], vec![false]));
}

#[test]
fn directive_runs_from_first_open_to_next_close() {
    assert_eq!(run(&["{a{b}c}"]).0, strings(&["a{b", "c}"]));
    assert_eq!(run(&["a}b{c"]).0, strings(&["a}b{c"]));
    assert_eq!(run(&["{a"]).0, strings(&["{a"]));
    assert_eq!(run(&["a{}b{"]).0, strings(&["a", "b{"]));
}

#[test]
fn reset_clears_waiting_format() {
    assert_eq!(run(&["{-|}{}"]), (strings(&[]), vec![0], vec![true]));
    assert_eq!(actions(&["{-|}", "{}", "cat"]), text(" cat"));
}

#[test]
fn attach_suppresses_space() {
    assert_eq!(run(&["{^}"]), (strings(&[]), vec![ATTACH], vec![true]));
    assert_eq!(run(&["{^^}"]), (strings(&[]), vec![ATTACH], vec![true]));
    assert_eq!(actions(&["cat", "{^}", "dog"]), text(" catdog"));
}

#[test]
fn capitalize_next() {
    assert_eq!(run(&["{-|}"]), (strings(&[]), vec![CAPITALIZE], vec![true]));
    assert_eq!(actions(&["{-|}", "cat"]), text(" Cat"));
    assert_eq!(actions(&["{<}", "{-|}", "cat"]), text(" Cat"));
}

#[test]
fn capitalize_last() {
    assert_eq!(
        run(&["cat", "{*-|}"]),
        (strings(&["cat"]), vec![CAPITALIZE, 0], vec![false, true])
    );
    assert_eq!(actions(&["cat", "{*-|}", "dog"]), text(" Cat dog"));
    assert_eq!(run(&["{*-|}"]), (strings(&[]), vec![0], vec![true]));
}

#[test]
fn lowercase_next_and_last() {
    assert_eq!(actions(&["{>}", "CAT"]), text(" cat"));
    assert_eq!(actions(&["CAT", "{*>}", "DOG"]), text(" cat DOG"));
}

#[test]
fn uppercase_next_and_last() {
    assert_eq!(actions(&["{<}", "cat"]), text(" CAT"));
    assert_eq!(actions(&["cat", "{*<}", "dog"]), text(" CAT dog"));
}

#[test]
fn lowercase_wins_over_capitalize() {
    assert_eq!(to_action("cAT", LOWERCASE | CAPITALIZE), text(" cat"));
    assert_eq!(to_action("cAt", LOWERCASE | UPPERCASE), text(" CAT"));
}

#[test]
fn retro_case_without_fragment_drops_waiting_format() {
    // With nothing on the stacks, `*>` and `*<` leave no format waiting,
    // where `*-|` puts the waiting format back.
    assert_eq!(run(&["{*>}"]), (strings(&[]), vec![], vec![true]));
    assert_eq!(run(&["{*<}"]), (strings(&[]), vec![], vec![true]));
    assert_eq!(run(&["{*-|}"]), (strings(&[]), vec![0], vec![true]));
}

#[test]
fn missing_formats_count_as_zero() {
    assert_eq!(run(&["{*>}{*>}"]), (strings(&[]), vec![], vec![true]));
    assert_eq!(run(&["{*>}", "a", "{*>}"]), (strings(&["a"]), vec![], vec![true, false, true]));
    assert_eq!(actions(&["{*>}", "a", "{*>}"]), text(" a"));
    assert_eq!(actions(&["{*>}", "a", "{^b}"]), text(" ab"));
}

#[test]
fn carry_capitalization_splits_waiting_format() {
    assert_eq!(
        run(&["{-|}", "{^}", "{~|}"]),
        (strings(&[]), vec![ATTACH, CAPITALIZE], vec![true, true, true])
    );
    assert_eq!(actions(&["{-|}", "{^}", "{~|}", "(", "cat"]), text("( Cat"));
}

#[test]
fn sentence_end_attaches_and_capitalizes_next() {
    assert_eq!(
        run(&["hello", "{.}"]),
        (strings(&["hello", "."]), vec![0, ATTACH, CAPITALIZE], vec![false, false])
    );
    assert_eq!(actions(&["hello", "{.}", "world"]), text(" hello. World"));
    assert_eq!(actions(&["hello", "{!}", "world"]), text(" hello! World"));
    assert_eq!(actions(&["hello", "{?}", "world"]), text(" hello? World"));
}

#[test]
fn pause_attaches_without_capitalizing() {
    assert_eq!(actions(&["hello", "{,}", "world"]), text(" hello, world"));
    assert_eq!(actions(&["hello", "{:}", "world"]), text(" hello: world"));
    assert_eq!(actions(&["hello", "{;}", "world"]), text(" hello; world"));
}

#[test]
fn key_command_is_silent_and_attaches_next() {
    assert_eq!(
        run(&["{#Return}"]),
        (strings(&["Return"]), vec![COMMAND | ATTACH, ATTACH], vec![true])
    );
    let mut expected = vec![Action::KeyClick(Key::Return)];
    expected.extend(text("cat"));
    assert_eq!(actions(&["{#Return}", "cat"]), expected);
}

#[test]
fn key_command_names() {
    let names = [
        ("Control_L", Key::Control),
        ("Shift_L", Key::Shift),
        ("Alt_L", Key::Alt),
        ("Super_L", Key::Meta),
        ("BackSpace", Key::Backspace),
        ("Escape", Key::Escape),
        ("Tab", Key::Tab),
        ("Delete", Key::Delete),
        ("Return", Key::Return),
        ("Up", Key::UpArrow),
        ("Down", Key::DownArrow),
        ("Left", Key::LeftArrow),
        ("Right", Key::RightArrow),
        ("a", Key::Layout('a')),
        ("other", Key::Layout('o')),
    ];
    for (name, key) in names {
        assert_eq!(to_action(name, COMMAND), vec![Action::KeyClick(key)]);
    }
}

#[test]
fn key_command_down_and_up() {
    assert_eq!(to_action("Control_L,", COMMAND), vec![Action::KeyDown(Key::Control)]);
    assert_eq!(to_action("Control_L.", COMMAND), vec![Action::KeyUp(Key::Control)]);
    assert_eq!(to_action("c,", COMMAND | ATTACH), vec![Action::KeyDown(Key::Layout('c'))]);
    assert_eq!(to_action(",", COMMAND), vec![]);
    assert_eq!(to_action("", COMMAND), vec![]);
}

#[test]
fn mark_alone_is_text() {
    // `#` and `&` need a character behind them to be a key command or glue.
    assert_eq!(run(&["{#}"]), (strings(&["#"]), vec![0, 0], vec![false]));
    assert_eq!(run(&["{&}"]), (strings(&["&"]), vec![0, 0], vec![false]));
    assert_eq!(run(&["{#\n}"]), (strings(&["#\n"]), vec![0, 0], vec![false]));
}

#[test]
fn glue_attaches_to_glue_only() {
    assert_eq!(run(&["{&1}"]), (strings(&["1"]), vec![GLUE, 0], vec![false]));
    assert_eq!(
        run(&["{&1}", "{&2}"]),
        (strings(&["1", "2"]), vec![GLUE, ATTACH | GLUE, 0], vec![false, false])
    );
    assert_eq!(actions(&["{&1}", "{&2}", "{&5}"]), text(" 125"));
    assert_eq!(actions(&["cat", "{&1}", "dog", "{&2}"]), text(" cat 1 dog 2"));
}

#[test]
fn number_translation_is_one_glued_fragment() {
    assert_eq!(run(&["{&125}"]), (strings(&["125"]), vec![GLUE, 0], vec![false]));
    assert_eq!(actions(&["{&125}"]), text(" 125"));
}

#[test]
fn suffix_is_merged_by_spelling_rules() {
    assert_eq!(run(&["cherry", "{^s}"]).0, strings(&["cherries"]));
    assert_eq!(actions(&["cherry", "{^s}"]), text(" cherries"));
    assert_eq!(actions(&["write", "{^en}"]), text(" written"));
    assert_eq!(actions(&["walk", "{^ing}"]), text(" walking"));
}

#[test]
fn suffix_without_fragment_is_attached_text() {
    assert_eq!(run(&["{^ing}"]), (strings(&["ing"]), vec![ATTACH, 0], vec![false]));
    assert_eq!(actions(&["{^ing}"]), text("ing"));
}

#[test]
fn suffix_behind_key_command_is_not_merged() {
    assert_eq!(run(&["{#Tab}", "{^s}"]).0, strings(&["Tab", "s"]));
}

#[test]
fn prefix_attaches_next_fragment() {
    assert_eq!(run(&["{re^}"]), (strings(&["re"]), vec![0, ATTACH], vec![false]));
    assert_eq!(actions(&["{re^}", "do"]), text(" redo"));
    assert_eq!(actions(&["a", "{^-^}", "b"]), text(" a-b"));
    assert_eq!(run(&["{^^^}"]).0, strings(&["^"]));
}

#[test]
fn unknown_directive_is_text() {
    assert_eq!(run(&["{plover:x}"]), (strings(&["plover:x"]), vec![0, 0], vec![false]));
}

#[test]
fn backslash_n_becomes_line_feed() {
    assert_eq!(to_action("a\\nb", ATTACH), text("a\nb"));
}

#[test]
fn capitalize_raises_first_character_only() {
    assert_eq!(to_action("cat dog", CAPITALIZE), text(" Cat dog"));
    assert_eq!(to_action("", CAPITALIZE), text(" "));
    assert_eq!(to_action("", CAPITALIZE | ATTACH), vec![]);
    assert_eq!(to_action("ßa", CAPITALIZE | ATTACH), text("Sa"));
}

#[test]
fn case_follows_unicode() {
    assert_eq!(to_action("Straße", UPPERCASE | ATTACH), text("STRASSE"));
    assert_eq!(to_action("ÄB", LOWERCASE | ATTACH), text("äb"));
}

#[test]
fn process_command_returns_whether_silent() {
    let ortho = Orthography::english();
    let mut s = vec![];
    let mut f = vec![0];
    assert!(process_command(&ortho, "-|", &mut s, &mut f));
    assert!(!process_command(&ortho, ".", &mut s, &mut f));
    assert!(process_command(&ortho, "#Tab", &mut s, &mut f));
    assert!(!process_command(&ortho, "&a", &mut s, &mut f));
    assert!(!process_command(&ortho, "^s", &mut s, &mut f));
}

#[test]
fn translations_are_marked_silent() {
    let ortho = Orthography::english();
    let mut ts = vec![
        Translation::new("cat".to_string(), 1),
        Translation::new("{-|}".to_string(), 1),
        Translation::new("{#Tab}{^}".to_string(), 1),
        Translation::new("{-|}x".to_string(), 1),
    ];
    translations_to_actions(&ortho, &mut ts);
    let flags: Vec<bool> = ts.iter().map(|t| t.non_undoable).collect();
    assert_eq!(flags, vec![false, true, true, false]);
    assert_eq!(ts[0].raw, "cat");
    assert_eq!(ts[0].consumed, 1);
}
