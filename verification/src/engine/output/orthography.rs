//! English spelling fixups for joining a word and a suffix.
//!
//! A rule is a pair of regular expressions, one for the word and one for the
//! suffix, and a template that says how to build the joined text from what the
//! two expressions captured. The expressions are matched by the `regex` crate.

use crate::engine::output::words::WordSet;
use crate::text::{chars_of, lines, lowercase, rows, split_lines, string_of};
use vstd::prelude::*;
use vstd::string::*;

verus! {

/// One piece of a replacement template.
#[derive(Debug)]
pub enum ReplaceItem {
    /// The text of a capture group of the word's match.
    WordCapture(usize),
    /// The text of a capture group of the suffix's match.
    SuffixCapture(usize),
    /// Fixed text.
    Literal(String),
}

/// The mathematical value of a [`ReplaceItem`].
pub enum ReplaceItemView {
    WordCapture(nat),
    SuffixCapture(nat),
    Literal(Seq<char>),
}

impl View for ReplaceItem {
    type V = ReplaceItemView;

    open spec fn view(&self) -> ReplaceItemView {
        match self {
            ReplaceItem::WordCapture(i) => ReplaceItemView::WordCapture(*i as nat),
            ReplaceItem::SuffixCapture(i) => ReplaceItemView::SuffixCapture(*i as nat),
            ReplaceItem::Literal(s) => ReplaceItemView::Literal(s@),
        }
    }
}

impl DeepView for ReplaceItem {
    type V = ReplaceItemView;

    open spec fn deep_view(&self) -> ReplaceItemView {
        self@
    }
}

/// A spelling rule: where `word` matches the word and `suffix` the suffix,
/// the joined text is what `replace` builds.
#[derive(Debug)]
pub struct Rule {
    pub word: String,
    pub suffix: String,
    pub replace: Vec<ReplaceItem>,
}

/// The mathematical value of a [`Rule`].
pub struct RuleView {
    pub word: Seq<char>,
    pub suffix: Seq<char>,
    pub replace: Seq<ReplaceItemView>,
}

impl View for Rule {
    type V = RuleView;

    open spec fn view(&self) -> RuleView {
        RuleView { word: self.word@, suffix: self.suffix@, replace: self.replace.deep_view() }
    }
}

impl DeepView for Rule {
    type V = RuleView;

    open spec fn deep_view(&self) -> RuleView {
        self@
    }
}

/// `regex::Error`, the error of a pattern that is not accepted. Nothing is
/// known of its contents.
#[verifier::external_type_specification]
#[verifier::external_body]
pub struct ExRegexError(regex::Error);

/// Whether `regex::Regex::new` accepts `pattern`.
pub uninterp spec fn regex_compiles(pattern: Seq<char>) -> bool;

/// What `regex::Regex::captures` finds for an accepted `pattern` in `text`:
/// `None` where the pattern does not match, else one entry per capture group,
/// group 0 first, `None` for a group that took no part in the match.
pub uninterp spec fn regex_captures(pattern: Seq<char>, text: Seq<char>) -> Option<
    Seq<Option<Seq<char>>>,
>;

/// Compiles `pattern` with `regex::Regex::new` and searches `text` with
/// `Regex::captures`. Trusted: the result is the crate's answer, an error
/// exactly where the pattern is not accepted, and otherwise the text of each
/// capture group of the leftmost match.
#[verifier::external_body]
fn captures(pattern: &str, text: &str) -> (r: Result<Option<Vec<Option<String>>>, regex::Error>)
    ensures
        r is Ok == regex_compiles(pattern@),
        r matches Ok(c) ==> c.deep_view() == regex_captures(pattern@, text@),
{
    let re = regex::Regex::new(pattern)?;
    Ok(re.captures(text).map(|c| c.iter().map(|m| m.map(|g| g.as_str().to_string())).collect()))
}

/// The text of capture group `i`, if the group exists and took part.
pub open spec fn group(caps: Seq<Option<Seq<char>>>, i: nat) -> Option<Seq<char>> {
    if i < caps.len() {
        caps[i as int]
    } else {
        None
    }
}

/// The text of one template piece, if it can be had.
pub open spec fn piece(
    item: ReplaceItemView,
    word: Seq<Option<Seq<char>>>,
    suffix: Seq<Option<Seq<char>>>,
) -> Option<Seq<char>> {
    match item {
        ReplaceItemView::WordCapture(i) => group(word, i),
        ReplaceItemView::SuffixCapture(i) => group(suffix, i),
        ReplaceItemView::Literal(s) => Some(s),
    }
}

/// The template's pieces joined in order, or `None` if the template names a
/// capture group that is missing.
pub open spec fn fill(
    template: Seq<ReplaceItemView>,
    word: Seq<Option<Seq<char>>>,
    suffix: Seq<Option<Seq<char>>>,
) -> Option<Seq<char>>
    decreases template.len(),
{
    if template.len() == 0 {
        Some(Seq::empty())
    } else {
        match (fill(template.drop_last(), word, suffix), piece(template.last(), word, suffix)) {
            (Some(head), Some(tail)) => Some(head + tail),
            _ => None,
        }
    }
}

/// What a rule makes of a word and a suffix: `None` where either expression
/// is not accepted or does not match, or the template cannot be filled.
pub open spec fn rule_result(rule: RuleView, word: Seq<char>, suffix: Seq<char>) -> Option<
    Seq<char>,
> {
    if regex_compiles(rule.word) && regex_compiles(rule.suffix) {
        match (regex_captures(rule.word, word), regex_captures(rule.suffix, suffix)) {
            (Some(w), Some(s)) => fill(rule.replace, w, s),
            _ => None,
        }
    } else {
        None
    }
}

/// The result of the first rule from position `k` on that applies, or the
/// plain join if none does.
pub open spec fn apply_rules(
    rules: Seq<RuleView>,
    k: nat,
    word: Seq<char>,
    suffix: Seq<char>,
) -> Seq<char>
    decreases rules.len() - k,
{
    if k >= rules.len() {
        word + suffix
    } else {
        match rule_result(rules[k as int], word, suffix) {
            Some(joined) => joined,
            None => apply_rules(rules, k + 1, word, suffix),
        }
    }
}

/// The joined spelling of `word` and `suffix`: the plain join where its
/// lowercase form is a known word, else what the rules give.
pub open spec fn apply(
    rules: Seq<RuleView>,
    words: Set<Seq<char>>,
    word: Seq<char>,
    suffix: Seq<char>,
) -> Seq<char> {
    if words.contains(lowercase(word + suffix)) {
        word + suffix
    } else {
        apply_rules(rules, 0, word, suffix)
    }
}

/// The text of capture group `i` of `caps`.
fn group_text(caps: &Vec<Option<String>>, i: usize) -> (r: Option<&String>)
    ensures
        r.deep_view() == group(caps.deep_view(), i as nat),
{
    if i < caps.len() {
        caps[i].as_ref()
    } else {
        None
    }
}

/// Builds the text that `template` describes from the capture groups of the
/// word's and the suffix's match.
pub fn expand(
    template: &Vec<ReplaceItem>,
    word: &Vec<Option<String>>,
    suffix: &Vec<Option<String>>,
) -> (r: Option<String>)
    ensures
        r.deep_view() == fill(template.deep_view(), word.deep_view(), suffix.deep_view()),
{
    let mut out = String::new();
    let mut k: usize = 0;
    let ghost t = template.deep_view();
    assert(t.take(0) =~= Seq::<ReplaceItemView>::empty());
    while k < template.len()
        invariant
            k <= template.len(),
            t == template.deep_view(),
            fill(t.take(k as int), word.deep_view(), suffix.deep_view()) == Some(out@),
        decreases template.len() - k,
    {
        proof {
            assert(t.take(k + 1).drop_last() =~= t.take(k as int));
            assert(t.take(k + 1).last() == template@[k as int]@);
        }
        let part: Option<&String> = match &template[k] {
            ReplaceItem::WordCapture(i) => group_text(word, *i),
            ReplaceItem::SuffixCapture(i) => group_text(suffix, *i),
            ReplaceItem::Literal(s) => Some(s),
        };
        match part {
            Some(text) => {
                out.append(text.as_str());
            },
            None => {
                proof {
                    lemma_fill_fails(t, k as nat, word.deep_view(), suffix.deep_view());
                }
                return None;
            },
        }
        k += 1;
    }
    assert(t.take(template.len() as int) =~= t);
    Some(out)
}

/// A template with a piece that cannot be had cannot be filled.
proof fn lemma_fill_fails(
    template: Seq<ReplaceItemView>,
    k: nat,
    word: Seq<Option<Seq<char>>>,
    suffix: Seq<Option<Seq<char>>>,
)
    requires
        k < template.len(),
        piece(template[k as int], word, suffix) is None,
    ensures
        fill(template, word, suffix) is None,
    decreases template.len(),
{
    if k + 1 < template.len() {
        lemma_fill_fails(template.drop_last(), k, word, suffix);
    }
}

/// A rule that puts `text` behind the word's first capture group.
pub open spec fn rule_append(word: Seq<char>, suffix: Seq<char>, text: Seq<char>) -> RuleView {
    RuleView {
        word,
        suffix,
        replace: seq![ReplaceItemView::WordCapture(1), ReplaceItemView::Literal(text)],
    }
}

/// A rule that puts `text` between the first capture groups of word and
/// suffix.
pub open spec fn rule_insert(word: Seq<char>, suffix: Seq<char>, text: Seq<char>) -> RuleView {
    RuleView {
        word,
        suffix,
        replace: seq![
            ReplaceItemView::WordCapture(1),
            ReplaceItemView::Literal(text),
            ReplaceItemView::SuffixCapture(1),
        ],
    }
}

/// A rule that joins the first capture groups of word and suffix.
pub open spec fn rule_join(word: Seq<char>, suffix: Seq<char>) -> RuleView {
    RuleView {
        word,
        suffix,
        replace: seq![ReplaceItemView::WordCapture(1), ReplaceItemView::SuffixCapture(1)],
    }
}

impl Rule {
    /// A rule that puts `text` behind the word's first capture group.
    pub fn append(word: &str, suffix: &str, text: &str) -> (rule: Rule)
        ensures
            rule@ == rule_append(word@, suffix@, text@),
    {
        let mut replace: Vec<ReplaceItem> = Vec::new();
        replace.push(ReplaceItem::WordCapture(1));
        replace.push(ReplaceItem::Literal(String::from_str(text)));
        assert(replace.deep_view() =~= seq![
            ReplaceItemView::WordCapture(1),
            ReplaceItemView::Literal(text@),
        ]);
        Rule { word: String::from_str(word), suffix: String::from_str(suffix), replace }
    }

    /// A rule that puts `text` between the first capture groups of word and
    /// suffix.
    pub fn insert(word: &str, suffix: &str, text: &str) -> (rule: Rule)
        ensures
            rule@ == rule_insert(word@, suffix@, text@),
    {
        let mut replace: Vec<ReplaceItem> = Vec::new();
        replace.push(ReplaceItem::WordCapture(1));
        replace.push(ReplaceItem::Literal(String::from_str(text)));
        replace.push(ReplaceItem::SuffixCapture(1));
        assert(replace.deep_view() =~= seq![
            ReplaceItemView::WordCapture(1),
            ReplaceItemView::Literal(text@),
            ReplaceItemView::SuffixCapture(1),
        ]);
        Rule { word: String::from_str(word), suffix: String::from_str(suffix), replace }
    }

    /// A rule that joins the first capture groups of word and suffix.
    pub fn join(word: &str, suffix: &str) -> (rule: Rule)
        ensures
            rule@ == rule_join(word@, suffix@),
    {
        let mut replace: Vec<ReplaceItem> = Vec::new();
        replace.push(ReplaceItem::WordCapture(1));
        replace.push(ReplaceItem::SuffixCapture(1));
        assert(replace.deep_view() =~= seq![
            ReplaceItemView::WordCapture(1),
            ReplaceItemView::SuffixCapture(1),
        ]);
        Rule { word: String::from_str(word), suffix: String::from_str(suffix), replace }
    }
}

/// The number of English spelling rules.
pub const ENGLISH_RULE_COUNT: usize = 38;

/// The English spelling rules, in the order in which they are tried. Each
/// has an example of what it is for.
pub open spec fn english_rules() -> Seq<RuleView> {
    seq![
        // artistic + ly: artistically
        rule_append("^(.*[aeiou]c)$"@, "^ly$"@, "ally"@),
        // questionable + ly: questionably
        rule_append("^(.+[aeioubmnp])le$"@, "^ly$"@, "ly"@),
        // statute + ry: statutory
        rule_append("^(.*t)e$"@, "^(ry|ary)$"@, "ory"@),
        // confirm + tory: confirmatory
        rule_insert("^(.+)m$"@, "^tor(y|ily)$"@, "mator"@),
        // supervise + ary: superviory; the rule drops "se"
        rule_insert("^(.+)se$"@, "^ar(y|ies)$"@, "or"@),
        // frequent + cy: frequency
        rule_append("^(.*[naeiou])te?$"@, "^cy$"@, "cy"@),
        // establish + s: establishes
        rule_append("^(.*(?:s|sh|x|z|zh))$"@, "^s$"@, "es"@),
        // speech + s: speeches
        rule_append("^(.*(?:oa|ea|i|ee|oo|au|ou|l|n|[gin]ar|t)ch)$"@, "^s$"@, "es"@),
        // cherry + s: cherries
        rule_append("^(.+[bcdfghjklmnpqrstvwxz])y$"@, "^s$"@, "ies"@),
        // die + ing: dying
        rule_append("^(.+)ie$"@, "^ing$"@, "ying"@),
        // metallurgy + ist: metallurgist
        rule_append("^(.+[cdfghlmnpr])y$"@, "^ist$"@, "ist"@),
        // beauty + ful: beautiful
        rule_insert("^(.+[bcdfghjklmnpqrstvwxz])y$"@, "^([a-hj-xz].*)$"@, "i"@),
        // write + en: written
        rule_append("^(.+)te$"@, "^en$"@, "tten"@),
        // Minnesota + en: Minnesotan
        rule_join("^(.+[ae])$"@, "^e(n|ns)$"@),
        // ceremony + ial: ceremonial
        rule_join("^(.+)y$"@, "^(ial|ially)$"@),
        // spaghetti + ification: spaghettification
        rule_insert("^(.+)i$"@, "^if(y|ying|ied|ies|ication|ications)$"@, "if"@),
        // fantastic + ical: fantastical
        rule_join("^(.+)ic$"@, "^(ical|ically)$"@),
        // fantastic + al: fantastical
        rule_join("^(.+ic)$"@, "^(al)$"@),
        // epistemology + ical: epistemological
        rule_insert("^(.+)ology$"@, "^ic(al|ally)$"@, "ologic"@),
        // oratory + ical: oratorical
        rule_insert("^(.*)ry$"@, "^ica(l|lly|lity)$"@, "rica"@),
        // radical + ist: radicalist
        rule_insert("^(.*[l])$"@, "^is(t|ts)$"@, "is"@),
        // complementary + ity: complementarity
        rule_append("^(.*)ry$"@, "^ity$"@, "rity"@),
        // disproportional + ity: disproportionality
        rule_append("^(.*)l$"@, "^ity$"@, "lity"@),
        // perform + tive: performative
        rule_insert("^(.+)rm$"@, "^tiv(e|ity|ities)$"@, "rmativ"@),
        // restore + tive: restorative
        rule_insert("^(.+)e$"@, "^tiv(e|ity|ities)$"@, "ativ"@),
        // fantasy + ize: fantasize
        rule_insert("^(.+)y$"@, "^iz(e|es|ing|ed|er|ers|ation|ations|able|ability)$"@, "iz"@),
        // fantasy + ise: fantasise
        rule_insert("^(.+)y$"@, "^is(e|es|ing|ed|er|ers|ation|ations|able|ability)$"@, "is"@),
        // conditional + ize: conditionalize
        rule_insert("^(.+)al$"@, "^iz(e|ed|es|ing|er|ers|ation|ations|m|ms|able|ability|abilities)$"@, "aliz"@),
        // conditional + ise: conditionalise
        rule_insert("^(.+)al$"@, "^is(e|ed|es|ing|er|ers|ation|ations|m|ms|able|ability|abilities)$"@, "alis"@),
        // spectacular + ization: spectacularization
        rule_insert("^(.+)ar$"@, "^iz(e|ed|es|ing|er|ers|ation|ations|m|ms)$"@, "ariz"@),
        // spectacular + isation: spectacularisation
        rule_insert("^(.+)ar$"@, "^is(e|ed|es|ing|er|ers|ation|ations|m|ms)$"@, "aris"@),
        // token + ize: tokenize
        rule_insert("^(.*[lmnty])$"@, "^iz(e|es|ing|ed|er|ers|ation|ations|m|ms|able|ability|abilities)$"@, "iz"@),
        // token + ise: tokenise
        rule_insert("^(.*[lmnty])$"@, "^is(e|es|ing|ed|er|ers|ation|ations|m|ms|able|ability|abilities)$"@, "is"@),
        // criminal + ology: criminology
        rule_insert("^(.+)al$"@, "^olog(y|ist|ists|ical|ically)$"@, "olog"@),
        // similar + ish: similarish
        RuleView {
            word: "^(.+)(ar|er|or)$"@,
            suffix: "^ish$"@,
            replace: seq![
                ReplaceItemView::WordCapture(1),
                ReplaceItemView::WordCapture(2),
                ReplaceItemView::Literal("ish"@),
            ],
        },
        // free + ed: freed
        rule_join("^(.+e)e$"@, "^(e.+)$"@),
        // narrate + ing: narrating
        rule_join("^(.+[bcdfghjklmnpqrstuvwxz])e$"@, "^([aeiouy].*)$"@),
        // defer + ed: deferred
        RuleView {
            word: "^(.*(?:[bcdfghjklmnprstvwxyz]|qu)[aeiou])([bcdfgklmnprtvz])$"@,
            suffix: "^([aeiouy].*)$"@,
            replace: seq![
                ReplaceItemView::WordCapture(1),
                ReplaceItemView::WordCapture(2),
                ReplaceItemView::WordCapture(2),
                ReplaceItemView::SuffixCapture(1),
            ],
        },
    ]
}

/// English spelling rule number `k`.
pub fn english_rule(k: usize) -> (rule: Rule)
    requires
        k < ENGLISH_RULE_COUNT,
    ensures
        english_rules().len() == ENGLISH_RULE_COUNT,
        rule@ == english_rules()[k as int],
{
    match k {
        0 => Rule::append("^(.*[aeiou]c)$", "^ly$", "ally"),
        1 => Rule::append("^(.+[aeioubmnp])le$", "^ly$", "ly"),
        2 => Rule::append("^(.*t)e$", "^(ry|ary)$", "ory"),
        3 => Rule::insert("^(.+)m$", "^tor(y|ily)$", "mator"),
        4 => Rule::insert("^(.+)se$", "^ar(y|ies)$", "or"),
        5 => Rule::append("^(.*[naeiou])te?$", "^cy$", "cy"),
        6 => Rule::append("^(.*(?:s|sh|x|z|zh))$", "^s$", "es"),
        7 => Rule::append("^(.*(?:oa|ea|i|ee|oo|au|ou|l|n|[gin]ar|t)ch)$", "^s$", "es"),
        8 => Rule::append("^(.+[bcdfghjklmnpqrstvwxz])y$", "^s$", "ies"),
        9 => Rule::append("^(.+)ie$", "^ing$", "ying"),
        10 => Rule::append("^(.+[cdfghlmnpr])y$", "^ist$", "ist"),
        11 => Rule::insert("^(.+[bcdfghjklmnpqrstvwxz])y$", "^([a-hj-xz].*)$", "i"),
        12 => Rule::append("^(.+)te$", "^en$", "tten"),
        13 => Rule::join("^(.+[ae])$", "^e(n|ns)$"),
        14 => Rule::join("^(.+)y$", "^(ial|ially)$"),
        15 => Rule::insert("^(.+)i$", "^if(y|ying|ied|ies|ication|ications)$", "if"),
        16 => Rule::join("^(.+)ic$", "^(ical|ically)$"),
        17 => Rule::join("^(.+ic)$", "^(al)$"),
        18 => Rule::insert("^(.+)ology$", "^ic(al|ally)$", "ologic"),
        19 => Rule::insert("^(.*)ry$", "^ica(l|lly|lity)$", "rica"),
        20 => Rule::insert("^(.*[l])$", "^is(t|ts)$", "is"),
        21 => Rule::append("^(.*)ry$", "^ity$", "rity"),
        22 => Rule::append("^(.*)l$", "^ity$", "lity"),
        23 => Rule::insert("^(.+)rm$", "^tiv(e|ity|ities)$", "rmativ"),
        24 => Rule::insert("^(.+)e$", "^tiv(e|ity|ities)$", "ativ"),
        25 => Rule::insert("^(.+)y$", "^iz(e|es|ing|ed|er|ers|ation|ations|able|ability)$", "iz"),
        26 => Rule::insert("^(.+)y$", "^is(e|es|ing|ed|er|ers|ation|ations|able|ability)$", "is"),
        27 => Rule::insert("^(.+)al$", "^iz(e|ed|es|ing|er|ers|ation|ations|m|ms|able|ability|abilities)$", "aliz"),
        28 => Rule::insert("^(.+)al$", "^is(e|ed|es|ing|er|ers|ation|ations|m|ms|able|ability|abilities)$", "alis"),
        29 => Rule::insert("^(.+)ar$", "^iz(e|ed|es|ing|er|ers|ation|ations|m|ms)$", "ariz"),
        30 => Rule::insert("^(.+)ar$", "^is(e|ed|es|ing|er|ers|ation|ations|m|ms)$", "aris"),
        31 => Rule::insert("^(.*[lmnty])$", "^iz(e|es|ing|ed|er|ers|ation|ations|m|ms|able|ability|abilities)$", "iz"),
        32 => Rule::insert("^(.*[lmnty])$", "^is(e|es|ing|ed|er|ers|ation|ations|m|ms|able|ability|abilities)$", "is"),
        33 => Rule::insert("^(.+)al$", "^olog(y|ist|ists|ical|ically)$", "olog"),
        34 => {
            let mut replace: Vec<ReplaceItem> = Vec::new();
            replace.push(ReplaceItem::WordCapture(1));
            replace.push(ReplaceItem::WordCapture(2));
            replace.push(ReplaceItem::Literal(String::from_str("ish")));
            assert(replace.deep_view() =~= seq![
                ReplaceItemView::WordCapture(1),
                ReplaceItemView::WordCapture(2),
                ReplaceItemView::Literal("ish"@),
            ]);
            Rule { word: String::from_str("^(.+)(ar|er|or)$"), suffix: String::from_str("^ish$"), replace }
        },
        35 => Rule::join("^(.+e)e$", "^(e.+)$"),
        36 => Rule::join("^(.+[bcdfghjklmnpqrstuvwxz])e$", "^([aeiouy].*)$"),
        _ => {
            let mut replace: Vec<ReplaceItem> = Vec::new();
            replace.push(ReplaceItem::WordCapture(1));
            replace.push(ReplaceItem::WordCapture(2));
            replace.push(ReplaceItem::WordCapture(2));
            replace.push(ReplaceItem::SuffixCapture(1));
            assert(replace.deep_view() =~= seq![
                ReplaceItemView::WordCapture(1),
                ReplaceItemView::WordCapture(2),
                ReplaceItemView::WordCapture(2),
                ReplaceItemView::SuffixCapture(1),
            ]);
            Rule { word: String::from_str("^(.*(?:[bcdfghjklmnprstvwxyz]|qu)[aeiou])([bcdfgklmnprtvz])$"), suffix: String::from_str("^([aeiouy].*)$"), replace }
        },
    }
}

/// The rules and the word list that decide how a suffix joins a word.
pub struct Orthography {
    rules: Vec<Rule>,
    words: WordSet,
}

/// The words of a word list: its lines, each in lowercase.
pub open spec fn listed_words(wordlist: Seq<char>) -> Set<Seq<char>> {
    lines(wordlist).map_values(|w: Seq<char>| lowercase(w)).to_set()
}

impl Orthography {
    /// The rules, in the order in which they are tried.
    pub closed spec fn rules(&self) -> Seq<RuleView> {
        self.rules.deep_view()
    }

    /// The known words, in lowercase.
    pub closed spec fn words(&self) -> Set<Seq<char>> {
        self.words@
    }

    /// The given rules, with no word known.
    pub fn new(rules: Vec<Rule>) -> (o: Orthography)
        ensures
            o.rules() == rules.deep_view(),
            o.words() == Set::<Seq<char>>::empty(),
    {
        Orthography { rules, words: WordSet::new() }
    }

    /// The English rules, with no word known.
    pub fn english() -> (o: Orthography)
        ensures
            o.rules() == english_rules(),
            o.words() == Set::<Seq<char>>::empty(),
    {
        let mut rules: Vec<Rule> = Vec::new();
        let mut k: usize = 0;
        while k < ENGLISH_RULE_COUNT
            invariant
                k <= ENGLISH_RULE_COUNT,
                rules.len() == k,
                k > 0 ==> english_rules().len() == ENGLISH_RULE_COUNT,
                forall|j: int| 0 <= j < k ==> rules@[j]@ == english_rules()[j],
            decreases ENGLISH_RULE_COUNT - k,
        {
            rules.push(english_rule(k));
            k += 1;
        }
        assert(rules.deep_view() =~= english_rules());
        Orthography::new(rules)
    }

    /// Adds the words of `wordlist`, one per line, each taken in lowercase.
    pub fn add_words(&mut self, wordlist: &str)
        ensures
            final(self).rules() == old(self).rules(),
            final(self).words() == old(self).words().union(listed_words(wordlist@)),
    {
        let text = chars_of(wordlist);
        let entries = split_lines(&text);
        let ghost all = lines(wordlist@).map_values(|w: Seq<char>| lowercase(w));
        let ghost start = self.words@;
        let mut i: usize = 0;
        assert(start.union(all.take(0).to_set()) =~= start);
        while i < entries.len()
            invariant
                i <= entries.len(),
                rows(entries@) == lines(wordlist@),
                all == lines(wordlist@).map_values(|w: Seq<char>| lowercase(w)),
                self.rules == old(self).rules,
                self.words@ == start.union(all.take(i as int).to_set()),
            decreases entries.len() - i,
        {
            let entry = string_of(&entries[i], 0, entries[i].len());
            let lower = entry.as_str().to_lowercase();
            proof {
                assert(entries@[i as int]@.subrange(0, entries@[i as int]@.len() as int)
                    =~= entries@[i as int]@);
                assert(rows(entries@)[i as int] == entries@[i as int]@);
                assert(all[i as int] == lowercase(entries@[i as int]@));
                lemma_take_to_set(all, i as int);
                assert(start.union(all.take(i + 1).to_set()) =~= start.union(
                    all.take(i as int).to_set(),
                ).insert(all[i as int]));
            }
            self.words.insert(chars_of(lower.as_str()));
            i += 1;
        }
        assert(all.take(entries.len() as int) =~= all);
    }
}

/// The members of a sequence up to and with position `i` are those before
/// it and the one at it.
proof fn lemma_take_to_set(all: Seq<Seq<char>>, i: int)
    requires
        0 <= i < all.len(),
    ensures
        all.take(i + 1).to_set() == all.take(i).to_set().insert(all[i]),
{
    let a = all.take(i);
    let b = all.take(i + 1);
    assert forall|x: Seq<char>| #[trigger]
        b.to_set().contains(x) == a.to_set().insert(all[i]).contains(x) by {
        if b.contains(x) {
            let j = choose|j: int| 0 <= j < b.len() && b[j] == x;
            if j < i {
                assert(a[j] == x);
            }
        }
        if a.contains(x) {
            let j = choose|j: int| 0 <= j < a.len() && a[j] == x;
            assert(b[j] == x);
        }
        if x == all[i] {
            assert(b[i] == x);
        }
    }
    assert(b.to_set() =~= a.to_set().insert(all[i]));
}

/// Joins `word` and `suffix` as English spelling asks: verbatim where the
/// joined text, in lowercase, is a known word; else by the first rule whose
/// expressions match both; else verbatim.
pub fn apply_orthography(ortho: &Orthography, word: &str, suffix: &str) -> (joined: String)
    ensures
        joined@ == apply(ortho.rules(), ortho.words(), word@, suffix@),
        ortho.words().contains(lowercase(word@ + suffix@)) ==> joined@ == word@ + suffix@,
{
    let mut join = String::from_str(word);
    join.append(suffix);
    let lower = join.as_str().to_lowercase();
    if ortho.words.contains(&chars_of(lower.as_str())) {
        return join;
    }
    let mut k: usize = 0;
    while k < ortho.rules.len()
        invariant
            k <= ortho.rules.len(),
            !ortho.words().contains(lowercase(word@ + suffix@)),
            apply_rules(ortho.rules(), 0, word@, suffix@) == apply_rules(
                ortho.rules(),
                k as nat,
                word@,
                suffix@,
            ),
        decreases ortho.rules.len() - k,
    {
        let rule = &ortho.rules[k];
        assert(ortho.rules()[k as int] == rule@);
        if let Ok(Some(suffix_caps)) = captures(rule.suffix.as_str(), suffix) {
            if let Ok(Some(word_caps)) = captures(rule.word.as_str(), word) {
                if let Some(text) = expand(&rule.replace, &word_caps, &suffix_caps) {
                    return text;
                }
            }
        }
        k += 1;
    }
    join
}

} // verus!
