use moreover::engine::dictionary::{
    Dictionary, LoadError, LoadErrorKind, NumbersDict, TreeDict,
};
use moreover::engine::Translation;
use moreover::steno::steno_to_id;

fn ids(strokes: &[&str]) -> Vec<u32> {
    strokes.iter().map(|s| steno_to_id(s)).collect()
}

fn answer(raw: &str, consumed: usize, complete: bool) -> Option<Translation> {
    Some(Translation { raw: raw.to_string(), consumed, complete, non_undoable: false })
}

#[test]
fn tree_finds_entry() {
    let dict = TreeDict::new("KAT\tcat\n").unwrap();
    assert_eq!(dict.get(&ids(&["KAT"])), answer("cat", 1, true));
    assert_eq!(dict.get(&ids(&["HAT"])), None);
    assert_eq!(dict.get(&[]), None);
}

#[test]
fn tree_takes_deepest_entry() {
    let dict = TreeDict::new("KAT\tcat\n\tHAT\tcategory\n\t\tS\tcategories\nHAT\that\n").unwrap();
    assert_eq!(dict.get(&ids(&["KAT"])), answer("cat", 1, false));
    assert_eq!(dict.get(&ids(&["KAT", "HAT"])), answer("category", 2, false));
    assert_eq!(dict.get(&ids(&["KAT", "HAT", "S"])), answer("categories", 3, true));
    assert_eq!(dict.get(&ids(&["KAT", "HAT", "S", "S"])), answer("categories", 3, true));
    assert_eq!(dict.get(&ids(&["KAT", "S"])), answer("cat", 1, false));
    assert_eq!(dict.get(&ids(&["HAT", "KAT"])), answer("hat", 1, true));
}

#[test]
fn tree_node_without_translation() {
    let dict = TreeDict::new("KAT\t\n\tHAT\tcategory\n").unwrap();
    assert_eq!(dict.get(&ids(&["KAT"])), None);
    assert_eq!(dict.get(&ids(&["KAT", "S"])), None);
    assert_eq!(dict.get(&ids(&["KAT", "HAT"])), answer("category", 2, true));
}

#[test]
fn tree_complete_looks_at_the_node_reached() {
    // The walk goes on to a node without a translation that has children.
    let dict = TreeDict::new("A\ta\n\tO\t\n\t\tS\taos\n").unwrap();
    assert_eq!(dict.get(&ids(&["A", "O"])), answer("a", 1, false));
    assert_eq!(dict.get(&ids(&["A", "O", "S"])), answer("aos", 3, true));
}

#[test]
fn tree_later_entry_replaces_subtree() {
    let dict = TreeDict::new("KAT\tcat\n\tHAT\tcategory\nKAT\tkitten\n").unwrap();
    assert_eq!(dict.get(&ids(&["KAT", "HAT"])), answer("kitten", 1, true));
}

#[test]
fn tree_translation_ends_at_second_tab() {
    let dict = TreeDict::new("KAT\tcat\tignored\n").unwrap();
    assert_eq!(dict.get(&ids(&["KAT"])), answer("cat", 1, true));
}

#[test]
fn tree_reads_crlf_and_unterminated_last_line() {
    let dict = TreeDict::new("KAT\tcat\r\nHAT\that").unwrap();
    assert_eq!(dict.get(&ids(&["KAT"])), answer("cat", 1, true));
    assert_eq!(dict.get(&ids(&["HAT"])), answer("hat", 1, true));
}

#[test]
fn tree_accepts_shorthand() {
    let dict = TreeDict::new("N\tin\n").unwrap();
    assert_eq!(dict.get(&ids(&["TPH"])), answer("in", 1, true));
}

#[test]
fn empty_text_is_empty_dictionary() {
    let dict = TreeDict::new("").unwrap();
    assert_eq!(dict.get(&ids(&["KAT"])), None);
}

fn load_error(text: &str) -> LoadError {
    match TreeDict::new(text) {
        Ok(_) => panic!("the text was loaded"),
        Err(e) => e,
    }
}

#[test]
fn line_without_tab_is_refused() {
    assert_eq!(
        load_error("KAT\tcat\nHAT\n"),
        LoadError { line: 2, kind: LoadErrorKind::MissingTab }
    );
    assert_eq!(load_error("\n"), LoadError { line: 1, kind: LoadErrorKind::MissingTab });
}

#[test]
fn unknown_key_is_refused() {
    assert_eq!(
        load_error("KAT\tcat\n\tHAT\tx\nKxT\tno\n"),
        LoadError { line: 3, kind: LoadErrorKind::UnknownKey }
    );
    assert_eq!(load_error(" KAT\tcat\n"), LoadError { line: 1, kind: LoadErrorKind::UnknownKey });
}

#[test]
fn orphan_line_is_refused() {
    assert_eq!(load_error("\tKAT\tcat\n"), LoadError { line: 1, kind: LoadErrorKind::Orphan });
    assert_eq!(
        load_error("KAT\tcat\n\t\tHAT\tx\n"),
        LoadError { line: 2, kind: LoadErrorKind::Orphan }
    );
}

#[test]
fn numbers_in_key_order() {
    let dict = NumbersDict::new();
    assert_eq!(dict.get(&[steno_to_id("#STA")]), answer("{&125}", 1, false));
    assert_eq!(dict.get(&[steno_to_id("#STPHAOfplt")]), answer("{&1234506789}", 1, false));
    assert_eq!(dict.get(&[steno_to_id("#O")]), answer("{&0}", 1, false));
}

#[test]
fn numbers_doubled_and_padded() {
    let dict = NumbersDict::new();
    assert_eq!(dict.get(&[steno_to_id("#Sd")]), answer("{&11}", 1, false));
    assert_eq!(dict.get(&[steno_to_id("#Sz")]), answer("{&100}", 1, false));
    assert_eq!(dict.get(&[steno_to_id("#STdz")]), answer("{&12200}", 1, false));
    assert_eq!(dict.get(&[steno_to_id("#")]), answer("{&}", 1, false));
    assert_eq!(dict.get(&[steno_to_id("#d")]), answer("{&&}", 1, false));
}

#[test]
fn numbers_need_the_number_key_and_number_keys_only() {
    let dict = NumbersDict::new();
    assert_eq!(dict.get(&[steno_to_id("STA")]), None);
    assert_eq!(dict.get(&[steno_to_id("#SK")]), None);
    assert_eq!(dict.get(&[steno_to_id("#S*")]), None);
    assert_eq!(dict.get(&[]), None);
}

#[test]
fn numbers_look_at_the_first_stroke_only() {
    let dict = NumbersDict::new();
    assert_eq!(
        dict.get(&[steno_to_id("#S"), steno_to_id("KAT")]),
        answer("{&1}", 1, false)
    );
}
