use moreover::engine::output::orthography::{
    apply_orthography, english_rule, expand, Orthography, ReplaceItem, Rule, ENGLISH_RULE_COUNT,
};
use moreover::engine::output::words::WordSet;

fn english() -> Orthography {
    Orthography::english()
}

fn chars(s: &str) -> Vec<char> {
    s.chars().collect()
}

fn groups(v: &[Option<&str>]) -> Vec<Option<String>> {
    v.iter().map(|g| g.map(|s| s.to_string())).collect()
}

#[test]
fn known_word_is_joined_verbatim() {
    let mut ortho = english();
    assert_eq!(apply_orthography(&ortho, "artistic", "ally"), "artisticcally");
    ortho.add_words("artistically\n");
    assert_eq!(apply_orthography(&ortho, "artistic", "ally"), "artistically");
}

#[test]
fn known_word_keeps_its_case() {
    let mut ortho = english();
    ortho.add_words("CHERRYS\n");
    assert_eq!(apply_orthography(&ortho, "Cherry", "S"), "CherryS");
    assert_eq!(apply_orthography(&ortho, "cherry", "s"), "cherrys");
}

#[test]
fn spelling_rules_apply() {
    let ortho = english();
    assert_eq!(apply_orthography(&ortho, "cherry", "s"), "cherries");
    assert_eq!(apply_orthography(&ortho, "write", "en"), "written");
    assert_eq!(apply_orthography(&ortho, "free", "ed"), "freed");
    assert_eq!(apply_orthography(&ortho, "artistic", "ly"), "artistically");
    assert_eq!(apply_orthography(&ortho, "questionable", "ly"), "questionably");
    assert_eq!(apply_orthography(&ortho, "statute", "ry"), "statutory");
    assert_eq!(apply_orthography(&ortho, "confirm", "tory"), "confirmatory");
    assert_eq!(apply_orthography(&ortho, "supervise", "ary"), "superviory");
    assert_eq!(apply_orthography(&ortho, "frequent", "cy"), "frequency");
    assert_eq!(apply_orthography(&ortho, "establish", "s"), "establishes");
    assert_eq!(apply_orthography(&ortho, "speech", "s"), "speeches");
    assert_eq!(apply_orthography(&ortho, "die", "ing"), "dying");
    assert_eq!(apply_orthography(&ortho, "metallurgy", "ist"), "metallurgist");
    assert_eq!(apply_orthography(&ortho, "beauty", "ful"), "beautiful");
    assert_eq!(apply_orthography(&ortho, "ceremony", "ial"), "ceremonial");
    assert_eq!(apply_orthography(&ortho, "spaghetti", "ification"), "spaghettification");
    assert_eq!(apply_orthography(&ortho, "fantastic", "ical"), "fantastical");
    assert_eq!(apply_orthography(&ortho, "fantastic", "al"), "fantastical");
    assert_eq!(apply_orthography(&ortho, "radical", "ist"), "radicalist");
    assert_eq!(apply_orthography(&ortho, "complementary", "ity"), "complementarity");
    assert_eq!(apply_orthography(&ortho, "perform", "tive"), "performative");
    assert_eq!(apply_orthography(&ortho, "restore", "tive"), "restorative");
    assert_eq!(apply_orthography(&ortho, "token", "ize"), "tokenize");
    assert_eq!(apply_orthography(&ortho, "conditional", "ize"), "conditionalize");
    assert_eq!(apply_orthography(&ortho, "criminal", "ology"), "criminology");
    assert_eq!(apply_orthography(&ortho, "similar", "ish"), "similarish");
    assert_eq!(apply_orthography(&ortho, "narrate", "ing"), "narrating");
    assert_eq!(apply_orthography(&ortho, "defer", "ed"), "deferred");
}

#[test]
fn first_matching_rule_wins() {
    // Two rules match "category" + "ize": the one for a word in "y", which
    // comes first, and the one for a word in "l", "m", "n", "t" or "y".
    let ortho = english();
    assert_eq!(apply_orthography(&ortho, "category", "ize"), "categorize");
    let swapped = Orthography::new(vec![english_rule(31), english_rule(25)]);
    assert_eq!(apply_orthography(&swapped, "category", "ize"), "categoryize");
    let in_order = Orthography::new(vec![english_rule(25), english_rule(31)]);
    assert_eq!(apply_orthography(&in_order, "category", "ize"), "categorize");
}

#[test]
fn no_rule_joins_plainly() {
    let ortho = english();
    assert_eq!(apply_orthography(&ortho, "walk", "ing"), "walking");
    assert_eq!(apply_orthography(&ortho, "", ""), "");
    assert_eq!(apply_orthography(&ortho, "cat", ""), "cat");
    let none = Orthography::new(vec![]);
    assert_eq!(apply_orthography(&none, "cherry", "s"), "cherrys");
}

#[test]
fn rules_are_anchored() {
    let ortho = Orthography::new(vec![english_rule(12)]);
    assert_eq!(apply_orthography(&ortho, "write", "en"), "written");
    assert_eq!(apply_orthography(&ortho, "write", "end"), "writeend");
    assert_eq!(apply_orthography(&ortho, "writes", "en"), "writesen");
    assert_eq!(apply_orthography(&ortho, "write", "ten"), "writeten");
}

#[test]
fn own_rules() {
    let rules = vec![
        Rule::append("^(.*)x$", "^y$", "Z"),
        Rule::insert("^(a+)$", "^(b+)$", "-"),
        Rule::join("^(.)(.)$", "^(.)$"),
    ];
    let ortho = Orthography::new(rules);
    assert_eq!(apply_orthography(&ortho, "fox", "y"), "foZ");
    assert_eq!(apply_orthography(&ortho, "aaa", "bb"), "aaa-bb");
    assert_eq!(apply_orthography(&ortho, "pq", "r"), "pr");
    assert_eq!(apply_orthography(&ortho, "pqs", "r"), "pqsr");
}

#[test]
fn rule_with_bad_expression_is_passed_over() {
    let rules = vec![Rule::append("^((.*)$", "^y$", "Z"), Rule::append("^(.*)x$", "^y$", "!")];
    let ortho = Orthography::new(rules);
    assert_eq!(apply_orthography(&ortho, "fox", "y"), "fo!");
}

#[test]
fn rule_with_missing_group_is_passed_over() {
    let rules = vec![
        Rule {
            word: "^(fo)(x)?".to_string(),
            suffix: "^y$".to_string(),
            replace: vec![ReplaceItem::WordCapture(2), ReplaceItem::SuffixCapture(0)],
        },
        Rule {
            word: "^(fo)".to_string(),
            suffix: "^y$".to_string(),
            replace: vec![ReplaceItem::WordCapture(5)],
        },
        Rule::append("^(.*)$", "^y$", "!"),
    ];
    let ortho = Orthography::new(rules);
    assert_eq!(apply_orthography(&ortho, "fox", "y"), "xy");
    assert_eq!(apply_orthography(&ortho, "fo", "y"), "fo!");
}

#[test]
fn expand_fills_template() {
    let template = vec![
        ReplaceItem::WordCapture(1),
        ReplaceItem::Literal("-".to_string()),
        ReplaceItem::SuffixCapture(0),
        ReplaceItem::WordCapture(1),
    ];
    let word = groups(&[Some("abc"), Some("ab")]);
    let suffix = groups(&[Some("s")]);
    assert_eq!(expand(&template, &word, &suffix), Some("ab-sab".to_string()));
    assert_eq!(expand(&vec![], &word, &suffix), Some(String::new()));
}

#[test]
fn expand_fails_on_missing_group() {
    let word = groups(&[Some("abc"), None]);
    let suffix = groups(&[Some("s")]);
    assert_eq!(expand(&vec![ReplaceItem::WordCapture(1)], &word, &suffix), None);
    assert_eq!(expand(&vec![ReplaceItem::WordCapture(2)], &word, &suffix), None);
    assert_eq!(expand(&vec![ReplaceItem::SuffixCapture(1)], &word, &suffix), None);
    assert_eq!(
        expand(
            &vec![ReplaceItem::Literal("x".to_string()), ReplaceItem::SuffixCapture(7)],
            &word,
            &suffix
        ),
        None
    );
}

#[test]
fn english_rule_table() {
    assert_eq!(ENGLISH_RULE_COUNT, 38);
    let first = english_rule(0);
    assert_eq!(first.word, "^(.*[aeiou]c)$");
    assert_eq!(first.suffix, "^ly$");
    assert_eq!(first.replace.len(), 2);
    let last = english_rule(37);
    assert_eq!(last.suffix, "^([aeiouy].*)$");
    assert_eq!(last.replace.len(), 4);
    let ish = english_rule(34);
    assert_eq!(ish.word, "^(.+)(ar|er|or)$");
    assert_eq!(ish.replace.len(), 3);
}

#[test]
fn word_list_is_taken_in_lowercase() {
    let mut ortho = Orthography::new(vec![Rule::append("^(.*)$", "^(.*)$", "!")]);
    assert_eq!(apply_orthography(&ortho, "Ab", "c"), "Ab!");
    ortho.add_words("first\r\nABC\nlast");
    assert_eq!(apply_orthography(&ortho, "Ab", "c"), "Abc");
    assert_eq!(apply_orthography(&ortho, "fir", "ST"), "firST");
    assert_eq!(apply_orthography(&ortho, "la", "st"), "last");
    assert_eq!(apply_orthography(&ortho, "la", "sts"), "la!");
}

#[test]
fn word_set_holds_what_was_put_in() {
    let mut set = WordSet::new();
    assert!(!set.contains(&chars("cat")));
    set.insert(chars("cat"));
    set.insert(chars("dog"));
    set.insert(chars("cat"));
    set.insert(chars(""));
    assert!(set.contains(&chars("cat")));
    assert!(set.contains(&chars("dog")));
    assert!(set.contains(&chars("")));
    assert!(!set.contains(&chars("ca")));
    assert!(!set.contains(&chars("cats")));
    assert!(!set.contains(&chars("tac")));
}

#[test]
fn word_set_with_many_words() {
    let mut set = WordSet::new();
    for i in 0..5000 {
        set.insert(chars(&format!("w{}", i * 7)));
    }
    for i in 0..5000 {
        assert!(set.contains(&chars(&format!("w{}", i * 7))));
        assert!(!set.contains(&chars(&format!("w{}", i * 7 + 1))));
    }
}
