//! The output formatter: from translations to keyboard actions.
//!
//! A translation's raw text is plain text with `{...}` directives in it. The
//! formatter keeps two stacks while it reads translations: the text fragments
//! made so far, and one format per fragment followed by the formats that wait
//! for the fragments to come.

pub mod format;
pub mod orthography;
pub mod words;

use crate::engine::output::format::{
    ATTACH, CAPITALIZE, COMMAND, GLUE, LOWERCASE, RESET_CAPS, UPPERCASE,
};
use crate::engine::output::orthography::{apply, apply_orthography, Orthography, RuleView};
use crate::engine::{Action, ActionView, Key, Translation, TranslationView};
use crate::text::{
    chars_of, first_upper, lowercase, matches_at, replace, replace_all, string_of, upper_first,
    uppercase,
};
use vstd::prelude::*;
use vstd::string::*;

verus! {

/// The formatter's two stacks.
pub struct Fragments {
    pub strings: Seq<Seq<char>>,
    pub formats: Seq<i32>,
}

/// The stacks before the first translation: no fragment, one waiting format.
pub open spec fn initial_fragments() -> Fragments {
    Fragments { strings: Seq::empty(), formats: seq![0i32] }
}

/// The top of the format stack; 0 where the stack is empty.
pub open spec fn top_format(formats: Seq<i32>) -> i32 {
    if formats.len() > 0 {
        formats.last()
    } else {
        0
    }
}

/// The format stack without its top.
pub open spec fn pop_format(formats: Seq<i32>) -> Seq<i32> {
    if formats.len() > 0 {
        formats.drop_last()
    } else {
        formats
    }
}

/// The stack with `bit` set in its top format; unchanged where it is empty.
pub open spec fn mark_top(formats: Seq<i32>, bit: i32) -> Seq<i32> {
    if formats.len() > 0 {
        formats.drop_last().push(formats.last() | bit)
    } else {
        formats
    }
}

/// `{.}`, `{!}` and `{?}` end a sentence.
pub open spec fn is_sentence_end(cmd: Seq<char>) -> bool {
    cmd.len() == 1 && (cmd[0] == '.' || cmd[0] == '!' || cmd[0] == '?')
}

/// `{,}`, `{:}` and `{;}` attach without ending the sentence.
pub open spec fn is_pause(cmd: Seq<char>) -> bool {
    cmd.len() == 1 && (cmd[0] == ',' || cmd[0] == ':' || cmd[0] == ';')
}

/// A directive that starts with `mark` and goes on with a character other
/// than a line feed.
pub open spec fn is_marked(cmd: Seq<char>, mark: char) -> bool {
    cmd.len() >= 2 && cmd[0] == mark && cmd[1] != '\n'
}

/// The stacks after a directive that attaches text: a leading `^` attaches
/// the text to the fragment before it, a trailing `^` attaches the next
/// fragment to the text. Text attached to a fragment that is not a key
/// command is merged into that fragment by the spelling rules.
pub open spec fn attach_effect(
    rules: Seq<RuleView>,
    words: Set<Seq<char>>,
    cmd: Seq<char>,
    strings: Seq<Seq<char>>,
    base: Seq<i32>,
    f: i32,
    next: i32,
) -> Fragments {
    let lead = cmd.len() > 0 && cmd[0] == '^';
    let rest = if lead {
        cmd.skip(1)
    } else {
        cmd
    };
    let trail = rest.len() > 0 && rest.last() == '^';
    let text = if trail {
        rest.drop_last()
    } else {
        rest
    };
    let this = if lead {
        f | ATTACH
    } else {
        f
    };
    let after = if trail {
        next | ATTACH
    } else {
        next
    };
    if lead && strings.len() > 0 && top_format(base) & COMMAND == 0 {
        Fragments {
            strings: strings.drop_last().push(apply(rules, words, strings.last(), text)),
            formats: base.push(after),
        }
    } else {
        Fragments { strings: strings.push(text), formats: base.push(this).push(after) }
    }
}

/// The stacks after the directive `cmd`.
///
/// The top of the format stack is the format that waits for the next
/// fragment. Where a second format waits above the fragments' own, the top is
/// the one after next and the one below it the next. A missing format counts
/// as 0.
pub open spec fn command_effect(
    rules: Seq<RuleView>,
    words: Set<Seq<char>>,
    cmd: Seq<char>,
    st: Fragments,
) -> Fragments {
    let top = top_format(st.formats);
    let popped = pop_format(st.formats);
    let two = popped.len() > st.strings.len();
    let f = if two {
        popped.last()
    } else {
        top
    };
    let next = if two {
        top
    } else {
        0
    };
    let base = if two {
        popped.drop_last()
    } else {
        popped
    };
    let strings = st.strings;
    if cmd == ""@ {
        Fragments { strings, formats: base.push(0) }
    } else if cmd == "^"@ || cmd == "^^"@ {
        Fragments { strings, formats: base.push(f | ATTACH) }
    } else if cmd == "-|"@ {
        Fragments { strings, formats: base.push((f & RESET_CAPS) | CAPITALIZE) }
    } else if cmd == "*-|"@ {
        Fragments { strings, formats: mark_top(base, CAPITALIZE).push(f) }
    } else if cmd == ">"@ {
        Fragments { strings, formats: base.push((f & RESET_CAPS) | LOWERCASE) }
    } else if cmd == "*>"@ {
        Fragments {
            strings,
            formats: if base.len() > 0 {
                mark_top(base, LOWERCASE).push(f)
            } else {
                base
            },
        }
    } else if cmd == "<"@ {
        Fragments { strings, formats: base.push((f & RESET_CAPS) | UPPERCASE) }
    } else if cmd == "*<"@ {
        Fragments {
            strings,
            formats: if base.len() > 0 {
                mark_top(base, UPPERCASE).push(f)
            } else {
                base
            },
        }
    } else if cmd == "~|"@ {
        Fragments { strings, formats: base.push(f & RESET_CAPS).push(f & !RESET_CAPS) }
    } else if is_sentence_end(cmd) {
        Fragments { strings: strings.push(cmd), formats: base.push(ATTACH).push(CAPITALIZE) }
    } else if is_pause(cmd) {
        Fragments { strings: strings.push(cmd), formats: base.push(ATTACH).push(0) }
    } else if is_marked(cmd, '#') {
        Fragments {
            strings: strings.push(cmd.skip(1)),
            formats: base.push(COMMAND | ATTACH).push(ATTACH),
        }
    } else if is_marked(cmd, '&') {
        Fragments {
            strings: strings.push(cmd.skip(1)),
            formats: base.push(
                if base.len() > 0 && base.last() & GLUE > 0 {
                    f | ATTACH | GLUE
                } else {
                    f | GLUE
                },
            ).push(0),
        }
    } else {
        attach_effect(rules, words, cmd, strings, base, f, next)
    }
}

/// Whether the directive `cmd` only changes formats or presses keys, and
/// types no text.
pub open spec fn command_silent(cmd: Seq<char>) -> bool {
    cmd == ""@ || cmd == "^"@ || cmd == "^^"@ || cmd == "-|"@ || cmd == "*-|"@ || cmd == ">"@
        || cmd == "*>"@ || cmd == "<"@ || cmd == "*<"@ || cmd == "~|"@ || (!is_sentence_end(cmd)
        && !is_pause(cmd) && is_marked(cmd, '#'))
}

/// Whether the characters in `cmd` are those of `lit`.
fn is_text(cmd: &Vec<char>, lit: &str) -> (b: bool)
    ensures
        b == (cmd@ == lit@),
{
    let other = chars_of(lit);
    let b = cmd.len() == other.len() && matches_at(cmd, 0, &other);
    proof {
        if cmd.len() == other.len() {
            assert(cmd@.subrange(0, other.len() as int) =~= cmd@);
        }
    }
    b
}

/// Whether `cmd` is one character long and that character is `a`, `b` or `c`.
fn is_one_of(cmd: &Vec<char>, a: char, b: char, c: char) -> (r: bool)
    ensures
        r == (cmd@.len() == 1 && (cmd@[0] == a || cmd@[0] == b || cmd@[0] == c)),
{
    cmd.len() == 1 && (cmd[0] == a || cmd[0] == b || cmd[0] == c)
}

/// Takes the top of the format stack; 0 where the stack is empty.
fn take_format(formats: &mut Vec<i32>) -> (f: i32)
    ensures
        f == top_format(old(formats)@),
        final(formats)@ == pop_format(old(formats)@),
{
    match formats.pop() {
        Some(f) => f,
        None => 0,
    }
}

/// Sets `bit` in the top of the format stack, if there is one.
fn mark_format(formats: &mut Vec<i32>, bit: i32)
    ensures
        final(formats)@ == mark_top(old(formats)@, bit),
{
    match formats.pop() {
        Some(prev) => {
            formats.push(prev | bit);
        },
        None => {},
    }
}

/// Puts a fragment on the string stack.
fn push_string(strings: &mut Vec<String>, s: String)
    ensures
        final(strings).deep_view() == old(strings).deep_view().push(s@),
{
    strings.push(s);
    assert(strings.deep_view() =~= old(strings).deep_view().push(s@));
}

/// Takes the last fragment off the string stack.
fn pop_string(strings: &mut Vec<String>) -> (s: String)
    requires
        old(strings).len() > 0,
    ensures
        s@ == old(strings).deep_view().last(),
        final(strings).deep_view() == old(strings).deep_view().drop_last(),
{
    let s = strings.pop().unwrap();
    assert(strings.deep_view() =~= old(strings).deep_view().drop_last());
    s
}

/// Applies one directive, the text between `{` and `}`, to the stacks.
/// Returns whether the directive typed no text.
pub fn process_command(
    ortho: &Orthography,
    s: &str,
    strings: &mut Vec<String>,
    formats: &mut Vec<i32>,
) -> (silent: bool)
    ensures
        (Fragments { strings: final(strings).deep_view(), formats: final(formats)@ })
            == command_effect(
            ortho.rules(),
            ortho.words(),
            s@,
            Fragments { strings: old(strings).deep_view(), formats: old(formats)@ },
        ),
        silent == command_silent(s@),
{
    let ghost goal = command_effect(
        ortho.rules(),
        ortho.words(),
        s@,
        Fragments { strings: old(strings).deep_view(), formats: old(formats)@ },
    );
    let cmd = chars_of(s);
    let mut f = take_format(formats);
    let mut next: i32 = 0;
    if formats.len() > strings.len() {
        next = f;
        f = take_format(formats);
    }
    let silent = if is_text(&cmd, "") {
        formats.push(0);
        true
    } else if is_text(&cmd, "^") || is_text(&cmd, "^^") {
        formats.push(f | ATTACH);
        true
    } else if is_text(&cmd, "-|") {
        formats.push((f & RESET_CAPS) | CAPITALIZE);
        true
    } else if is_text(&cmd, "*-|") {
        mark_format(formats, CAPITALIZE);
        formats.push(f);
        true
    } else if is_text(&cmd, ">") {
        formats.push((f & RESET_CAPS) | LOWERCASE);
        true
    } else if is_text(&cmd, "*>") {
        if formats.len() > 0 {
            mark_format(formats, LOWERCASE);
            formats.push(f);
        }
        true
    } else if is_text(&cmd, "<") {
        formats.push((f & RESET_CAPS) | UPPERCASE);
        true
    } else if is_text(&cmd, "*<") {
        if formats.len() > 0 {
            mark_format(formats, UPPERCASE);
            formats.push(f);
        }
        true
    } else if is_text(&cmd, "~|") {
        formats.push(f & RESET_CAPS);
        formats.push(f & !RESET_CAPS);
        true
    } else if is_one_of(&cmd, '.', '!', '?') {
        push_string(strings, string_of(&cmd, 0, cmd.len()));
        assert(cmd@.subrange(0, cmd.len() as int) =~= cmd@);
        formats.push(ATTACH);
        formats.push(CAPITALIZE);
        false
    } else if is_one_of(&cmd, ',', ':', ';') {
        push_string(strings, string_of(&cmd, 0, cmd.len()));
        assert(cmd@.subrange(0, cmd.len() as int) =~= cmd@);
        formats.push(ATTACH);
        formats.push(0);
        false
    } else if cmd.len() >= 2 && cmd[0] == '#' && cmd[1] != '\n' {
        push_string(strings, string_of(&cmd, 1, cmd.len()));
        assert(cmd@.subrange(1, cmd.len() as int) =~= cmd@.skip(1));
        formats.push(COMMAND | ATTACH);
        formats.push(ATTACH);
        true
    } else if cmd.len() >= 2 && cmd[0] == '&' && cmd[1] != '\n' {
        push_string(strings, string_of(&cmd, 1, cmd.len()));
        assert(cmd@.subrange(1, cmd.len() as int) =~= cmd@.skip(1));
        let glued = formats.len() > 0 && formats[formats.len() - 1] & GLUE > 0;
        formats.push(
            if glued {
                f | ATTACH | GLUE
            } else {
                f | GLUE
            },
        );
        formats.push(0);
        false
    } else {
        let lead = cmd.len() > 0 && cmd[0] == '^';
        let from: usize = if lead {
            1
        } else {
            0
        };
        let trail = cmd.len() > from && cmd[cmd.len() - 1] == '^';
        let to: usize = if trail {
            cmd.len() - 1
        } else {
            cmd.len()
        };
        let text = string_of(&cmd, from, to);
        proof {
            let rest = if lead {
                cmd@.skip(1)
            } else {
                cmd@
            };
            assert(rest =~= cmd@.subrange(from as int, cmd.len() as int));
            if rest.len() > 0 {
                assert(rest.last() == cmd@[cmd.len() - 1]);
            }
            if trail {
                assert(rest.drop_last() =~= cmd@.subrange(from as int, to as int));
            }
        }
        if lead {
            f = f | ATTACH;
        }
        if trail {
            next = next | ATTACH;
        }
        let after_command = formats.len() > 0 && formats[formats.len() - 1] & COMMAND != 0;
        assert(0i32 & 1i32 == 0) by (bit_vector);
        if lead && strings.len() > 0 && !after_command {
            let last = pop_string(strings);
            let joined = apply_orthography(ortho, last.as_str(), text.as_str());
            push_string(strings, joined);
            formats.push(next);
        } else {
            push_string(strings, text);
            formats.push(f);
            formats.push(next);
        }
        false
    };
    assert(strings.deep_view() =~= goal.strings);
    assert(formats@ =~= goal.formats);
    silent
}

/// Whether `s` starts with an escaped brace: a backslash and a brace behind
/// it.
pub open spec fn escapes_brace(s: Seq<char>) -> bool {
    s.len() >= 2 && s[0] == '\\' && (s[1] == '{' || s[1] == '}')
}

/// Text with `\{` and `\}` turned into the bare braces.
pub open spec fn unescape(s: Seq<char>) -> Seq<char>
    decreases s.len(),
{
    if s.len() == 0 {
        s
    } else if escapes_brace(s) {
        seq![s[1]] + unescape(s.skip(2))
    } else {
        seq![s[0]] + unescape(s.skip(1))
    }
}

/// The position of the first `brace` in `s` that is not escaped, or the
/// length of `s` if it holds none. The scan goes from the left and steps
/// over a backslash together with the brace behind it.
pub open spec fn first_bare(s: Seq<char>, brace: char) -> nat
    decreases s.len(),
{
    if s.len() == 0 {
        0
    } else if escapes_brace(s) {
        2 + first_bare(s.skip(2), brace)
    } else if s[0] == brace {
        0
    } else {
        1 + first_bare(s.skip(1), brace)
    }
}

/// The stacks after plain text: a new fragment with format 0 waiting behind
/// it, or no change where the text is empty.
pub open spec fn text_effect(text: Seq<char>, st: Fragments) -> Fragments {
    if text.len() == 0 {
        st
    } else {
        Fragments { strings: st.strings.push(unescape(text)), formats: st.formats.push(0) }
    }
}

/// The stacks after the raw text of one translation.
///
/// A directive runs from the first `{` that is not escaped to the first `}`
/// behind it that is not escaped; what stands before it is plain text, and
/// what follows is read in the same way. Where no directive is left, the rest
/// is plain text. A brace with a backslash before it neither opens nor closes
/// a directive: in plain text and inside a directive alike it stands for the
/// bare brace.
pub open spec fn raw_effect(
    rules: Seq<RuleView>,
    words: Set<Seq<char>>,
    raw: Seq<char>,
    st: Fragments,
) -> Fragments
    decreases raw.len(),
{
    let open = first_bare(raw, '{');
    let body = raw.skip(open as int + 1);
    let close = first_bare(body, '}');
    if open >= raw.len() || close >= body.len() {
        text_effect(raw, st)
    } else {
        raw_effect(
            rules,
            words,
            body.skip(close as int + 1),
            command_effect(
                rules,
                words,
                unescape(body.take(close as int)),
                text_effect(raw.take(open as int), st),
            ),
        )
    }
}

/// Whether the raw text of a translation types no text: it holds nothing but
/// silent directives.
pub open spec fn raw_silent(raw: Seq<char>) -> bool
    decreases raw.len(),
{
    let open = first_bare(raw, '{');
    let body = raw.skip(open as int + 1);
    let close = first_bare(body, '}');
    if open >= raw.len() || close >= body.len() {
        raw.len() == 0
    } else {
        open == 0 && command_silent(unescape(body.take(close as int))) && raw_silent(
            body.skip(close as int + 1),
        )
    }
}

/// Finds the first `brace` in `v` at or after `from` that is not escaped;
/// the length of `v` if there is none.
fn find_bare(v: &Vec<char>, brace: char, from: usize) -> (at: usize)
    requires
        from <= v.len(),
    ensures
        from <= at <= v.len(),
        at - from == first_bare(v@.skip(from as int), brace),
{
    let mut at: usize = from;
    let mut found = false;
    while !found && at < v.len()
        invariant
            from <= at <= v.len(),
            first_bare(v@.skip(from as int), brace) == at - from + first_bare(
                v@.skip(at as int),
                brace,
            ),
            found ==> at < v.len() && first_bare(v@.skip(at as int), brace) == 0,
        decreases v.len() - at + if found { 0int } else { 1int },
    {
        let ghost rest = v@.skip(at as int);
        proof {
            assert(rest[0] == v@[at as int]);
            if rest.len() >= 2 {
                assert(rest[1] == v@[at + 1]);
            }
        }
        if v[at] == '\\' && at + 1 < v.len() && (v[at + 1] == '{' || v[at + 1] == '}') {
            assert(rest.skip(2) =~= v@.skip(at + 2));
            at += 2;
        } else if v[at] == brace {
            found = true;
        } else {
            assert(rest.skip(1) =~= v@.skip(at + 1));
            at += 1;
        }
    }
    at
}

/// The text `v[from..to]` without its escapes.
fn unescaped(v: &Vec<char>, from: usize, to: usize) -> (out: String)
    requires
        from <= to <= v.len(),
    ensures
        out@ == unescape(v@.subrange(from as int, to as int)),
{
    let mut out = String::new();
    let mut i: usize = from;
    let ghost s = v@.subrange(from as int, to as int);
    assert(s.skip(0) =~= s);
    while i < to
        invariant
            from <= i <= to <= v.len(),
            s == v@.subrange(from as int, to as int),
            unescape(s) == out@ + unescape(s.skip(i - from)),
        decreases to - i,
    {
        let ghost rest = s.skip(i - from);
        if v[i] == '\\' && i + 1 < to && (v[i + 1] == '{' || v[i + 1] == '}') {
            assert(rest[0] == v@[i as int] && rest[1] == v@[i + 1]);
            assert(rest.skip(2) =~= s.skip(i + 2 - from));
            out.push(v[i + 1]);
            i += 2;
        } else {
            proof {
                assert(rest[0] == v@[i as int]);
                if rest.len() >= 2 {
                    assert(rest[1] == v@[i + 1]);
                }
                assert(rest.skip(1) =~= s.skip(i + 1 - from));
            }
            out.push(v[i]);
            i += 1;
        }
    }
    out
}

/// Reads the raw text of one translation into the stacks. Returns whether
/// the translation typed no text.
pub fn process_raw(
    ortho: &Orthography,
    s: &str,
    strings: &mut Vec<String>,
    formats: &mut Vec<i32>,
) -> (silent: bool)
    ensures
        (Fragments { strings: final(strings).deep_view(), formats: final(formats)@ })
            == raw_effect(
            ortho.rules(),
            ortho.words(),
            s@,
            Fragments { strings: old(strings).deep_view(), formats: old(formats)@ },
        ),
        silent == raw_silent(s@),
{
    let raw = chars_of(s);
    let ghost goal = raw_effect(
        ortho.rules(),
        ortho.words(),
        s@,
        Fragments { strings: old(strings).deep_view(), formats: old(formats)@ },
    );
    let mut silent = true;
    let mut pos: usize = 0;
    assert(raw@.skip(0) =~= raw@);
    while pos < raw.len()
        invariant
            pos <= raw.len(),
            raw@ == s@,
            goal == raw_effect(
                ortho.rules(),
                ortho.words(),
                raw@.skip(pos as int),
                Fragments { strings: strings.deep_view(), formats: formats@ },
            ),
            raw_silent(s@) == (silent && raw_silent(raw@.skip(pos as int))),
        decreases raw.len() - pos,
    {
        let ghost rest = raw@.skip(pos as int);
        let open = find_bare(&raw, '{', pos);
        let close = if open < raw.len() {
            find_bare(&raw, '}', open + 1)
        } else {
            raw.len()
        };
        proof {
            if open < raw.len() {
                assert(rest.skip(open - pos + 1) =~= raw@.skip(open + 1));
            }
        }
        if close >= raw.len() {
            let text = unescaped(&raw, pos, raw.len());
            assert(raw@.subrange(pos as int, raw.len() as int) =~= rest);
            push_string(strings, text);
            formats.push(0);
            silent = false;
            pos = raw.len();
            assert(raw@.skip(raw.len() as int) =~= Seq::<char>::empty());
        } else {
            let ghost body = raw@.skip(open + 1);
            if open > pos {
                let text = unescaped(&raw, pos, open);
                push_string(strings, text);
                formats.push(0);
                silent = false;
            }
            let cmd = unescaped(&raw, open + 1, close);
            let quiet = process_command(ortho, cmd.as_str(), strings, formats);
            silent = silent && quiet;
            proof {
                assert(rest.take(open - pos) =~= raw@.subrange(pos as int, open as int));
                assert(body.take(close - open - 1) =~= raw@.subrange(open + 1, close as int));
                assert(body.skip(close - open - 1 + 1) =~= raw@.skip(close + 1));
            }
            pos = close + 1;
        }
    }
    silent
}

/// The key that a `{#...}` command names: one of the thirteen known names,
/// else the key that types the name's first character. The empty name names
/// no key.
pub open spec fn key_named(name: Seq<char>) -> Option<Key> {
    if name == "Control_L"@ {
        Some(Key::Control)
    } else if name == "Shift_L"@ {
        Some(Key::Shift)
    } else if name == "Alt_L"@ {
        Some(Key::Alt)
    } else if name == "Super_L"@ {
        Some(Key::Meta)
    } else if name == "BackSpace"@ {
        Some(Key::Backspace)
    } else if name == "Escape"@ {
        Some(Key::Escape)
    } else if name == "Tab"@ {
        Some(Key::Tab)
    } else if name == "Delete"@ {
        Some(Key::Delete)
    } else if name == "Return"@ {
        Some(Key::Return)
    } else if name == "Up"@ {
        Some(Key::UpArrow)
    } else if name == "Down"@ {
        Some(Key::DownArrow)
    } else if name == "Left"@ {
        Some(Key::LeftArrow)
    } else if name == "Right"@ {
        Some(Key::RightArrow)
    } else if name.len() > 0 {
        Some(Key::Layout(name[0]))
    } else {
        None
    }
}

/// The action of a key command: the key goes down where the command ends in
/// `,`, up where it ends in `.`, and is clicked otherwise.
pub open spec fn key_actions(text: Seq<char>) -> Seq<ActionView> {
    let down = text.len() > 0 && text.last() == ',';
    let up = text.len() > 0 && text.last() == '.';
    let name = if down || up {
        text.drop_last()
    } else {
        text
    };
    match key_named(name) {
        Some(key) => seq![
            if down {
                ActionView::KeyDown(key)
            } else if up {
                ActionView::KeyUp(key)
            } else {
                ActionView::KeyClick(key)
            },
        ],
        None => Seq::empty(),
    }
}

/// The characters that a text fragment types: `\\n` becomes a line feed, the
/// case bits are applied, and a space goes first unless the fragment attaches.
pub open spec fn typed_text(text: Seq<char>, f: i32) -> Seq<char> {
    let broken = replace_all(text, "\\n"@, "\n"@);
    let lowered = if f & LOWERCASE > 0 {
        lowercase(broken)
    } else {
        broken
    };
    let raised = if f & UPPERCASE > 0 {
        uppercase(lowered)
    } else {
        lowered
    };
    let capped = if f & LOWERCASE == 0 && f & CAPITALIZE > 0 && raised.len() > 0 {
        raised.update(0, upper_first(raised[0]))
    } else {
        raised
    };
    if f & ATTACH == 0 {
        seq![' '] + capped
    } else {
        capped
    }
}

/// The actions of one fragment with its format: a key action for a key
/// command, else one text action for each character typed.
pub open spec fn fragment_actions(text: Seq<char>, f: i32) -> Seq<ActionView> {
    if f & COMMAND > 0 {
        key_actions(text)
    } else {
        typed_text(text, f).map_values(|c: char| ActionView::Text(seq![c]))
    }
}

/// Looks up the key that `name` names.
fn key_for(name: &Vec<char>) -> (key: Option<Key>)
    ensures
        key == key_named(name@),
{
    if is_text(name, "Control_L") {
        Some(Key::Control)
    } else if is_text(name, "Shift_L") {
        Some(Key::Shift)
    } else if is_text(name, "Alt_L") {
        Some(Key::Alt)
    } else if is_text(name, "Super_L") {
        Some(Key::Meta)
    } else if is_text(name, "BackSpace") {
        Some(Key::Backspace)
    } else if is_text(name, "Escape") {
        Some(Key::Escape)
    } else if is_text(name, "Tab") {
        Some(Key::Tab)
    } else if is_text(name, "Delete") {
        Some(Key::Delete)
    } else if is_text(name, "Return") {
        Some(Key::Return)
    } else if is_text(name, "Up") {
        Some(Key::UpArrow)
    } else if is_text(name, "Down") {
        Some(Key::DownArrow)
    } else if is_text(name, "Left") {
        Some(Key::LeftArrow)
    } else if is_text(name, "Right") {
        Some(Key::RightArrow)
    } else if name.len() > 0 {
        Some(Key::Layout(name[0]))
    } else {
        None
    }
}

/// Turns one fragment and its format into actions.
pub fn to_action(s: &str, f: i32) -> (actions: Vec<Action>)
    ensures
        actions.deep_view() == fragment_actions(s@, f),
{
    let mut text = chars_of(s);
    let mut actions: Vec<Action> = Vec::new();
    if f & COMMAND > 0 {
        let down = text.len() > 0 && text[text.len() - 1] == ',';
        let up = text.len() > 0 && text[text.len() - 1] == '.';
        if down || up {
            text.pop();
        }
        match key_for(&text) {
            Some(key) => {
                actions.push(
                    if down {
                        Action::KeyDown(key)
                    } else if up {
                        Action::KeyUp(key)
                    } else {
                        Action::KeyClick(key)
                    },
                );
            },
            None => {},
        }
        assert(actions.deep_view() =~= key_actions(s@));
    } else {
        text = replace(&text, &chars_of("\\n"), &chars_of("\n"));
        if f & LOWERCASE > 0 {
            let whole = string_of(&text, 0, text.len());
            assert(text@.subrange(0, text.len() as int) =~= text@);
            text = chars_of(whole.as_str().to_lowercase().as_str());
        }
        if f & UPPERCASE > 0 {
            let whole = string_of(&text, 0, text.len());
            assert(text@.subrange(0, text.len() as int) =~= text@);
            text = chars_of(whole.as_str().to_uppercase().as_str());
        }
        if f & LOWERCASE == 0 && f & CAPITALIZE > 0 && text.len() > 0 {
            let first = first_upper(text[0]);
            text.set(0, first);
        }
        if f & ATTACH == 0 {
            text.insert(0, ' ');
            assert(text@ =~= typed_text(s@, f));
        }
        let mut i: usize = 0;
        while i < text.len()
            invariant
                i <= text.len(),
                text@ == typed_text(s@, f),
                actions.deep_view() == text@.take(i as int).map_values(
                    |c: char| ActionView::Text(seq![c]),
                ),
            decreases text.len() - i,
        {
            let mut one = String::new();
            one.push(text[i]);
            assert(one@ =~= seq![text@[i as int]]);
            let ghost before = actions.deep_view();
            actions.push(Action::Text(one));
            assert(actions.deep_view() =~= before.push(ActionView::Text(seq![text@[i as int]])));
            assert(text@.take(i + 1) =~= text@.take(i as int).push(text@[i as int]));
            assert(actions.deep_view() =~= text@.take(i + 1).map_values(
                |c: char| ActionView::Text(seq![c]),
            ));
            i += 1;
        }
        assert(text@.take(text.len() as int) =~= text@);
    }
    actions
}

/// The stacks after the translations from position `k` on, read in order.
pub open spec fn format_all(
    rules: Seq<RuleView>,
    words: Set<Seq<char>>,
    translations: Seq<TranslationView>,
    k: nat,
    st: Fragments,
) -> Fragments
    decreases translations.len() - k,
{
    if k >= translations.len() {
        st
    } else {
        format_all(
            rules,
            words,
            translations,
            k + 1,
            raw_effect(rules, words, translations[k as int].raw, st),
        )
    }
}

/// The format of fragment `i`; 0 where the format stack is too short.
pub open spec fn format_at(formats: Seq<i32>, i: int) -> i32 {
    if 0 <= i < formats.len() {
        formats[i]
    } else {
        0
    }
}

/// The actions of the first `n` fragments, in order.
pub open spec fn emit(st: Fragments, n: nat) -> Seq<ActionView>
    decreases n,
{
    if n == 0 {
        Seq::empty()
    } else {
        emit(st, (n - 1) as nat) + fragment_actions(
            st.strings[n - 1],
            format_at(st.formats, n - 1),
        )
    }
}

/// The actions that a run of translations comes to.
pub open spec fn actions_of(
    rules: Seq<RuleView>,
    words: Set<Seq<char>>,
    translations: Seq<TranslationView>,
) -> Seq<ActionView> {
    let st = format_all(rules, words, translations, 0, initial_fragments());
    emit(st, st.strings.len())
}

/// A translation with its `non_undoable` flag as the formatter sets it.
pub open spec fn annotate(t: TranslationView) -> TranslationView {
    TranslationView { non_undoable: raw_silent(t.raw), ..t }
}

/// The translations, each with its `non_undoable` flag set by the formatter.
pub open spec fn annotated(translations: Seq<TranslationView>) -> Seq<TranslationView> {
    translations.map_values(|t: TranslationView| annotate(t))
}

/// The silent flags of translations do not bear on the stacks they come to.
pub proof fn lemma_format_all_annotated(
    rules: Seq<RuleView>,
    words: Set<Seq<char>>,
    translations: Seq<TranslationView>,
    k: nat,
    st: Fragments,
)
    ensures
        format_all(rules, words, annotated(translations), k, st) == format_all(
            rules,
            words,
            translations,
            k,
            st,
        ),
    decreases translations.len() - k,
{
    if k < translations.len() {
        lemma_format_all_annotated(
            rules,
            words,
            translations,
            k + 1,
            raw_effect(rules, words, translations[k as int].raw, st),
        );
    }
}

/// The silent flags of translations do not bear on their actions.
pub proof fn lemma_actions_of_annotated(
    rules: Seq<RuleView>,
    words: Set<Seq<char>>,
    translations: Seq<TranslationView>,
)
    ensures
        actions_of(rules, words, annotated(translations)) == actions_of(
            rules,
            words,
            translations,
        ),
{
    lemma_format_all_annotated(rules, words, translations, 0, initial_fragments());
}

/// Formats a run of translations into actions, and marks each translation
/// that typed no text as `non_undoable`.
pub fn translations_to_actions(ortho: &Orthography, translations: &mut Vec<Translation>) -> (actions:
    Vec<Action>)
    ensures
        actions.deep_view() == actions_of(
            ortho.rules(),
            ortho.words(),
            old(translations).deep_view(),
        ),
        final(translations).deep_view() == annotated(old(translations).deep_view()),
{
    let mut strings: Vec<String> = Vec::new();
    let mut formats: Vec<i32> = Vec::new();
    formats.push(0);
    let ghost before = translations.deep_view();
    assert(strings.deep_view() =~= Seq::<Seq<char>>::empty());
    assert(formats@ =~= seq![0i32]);
    let mut t: usize = 0;
    while t < translations.len()
        invariant
            t <= translations.len(),
            translations.len() == before.len(),
            forall|j: int| 0 <= j < t ==> translations@[j]@ == annotate(before[j]),
            forall|j: int| t <= j < before.len() ==> translations@[j]@ == before[j],
            format_all(ortho.rules(), ortho.words(), before, 0, initial_fragments())
                == format_all(
                ortho.rules(),
                ortho.words(),
                before,
                t as nat,
                Fragments { strings: strings.deep_view(), formats: formats@ },
            ),
        decreases translations.len() - t,
    {
        let silent = process_raw(ortho, translations[t].raw.as_str(), &mut strings, &mut formats);
        let mut updated = translations[t].clone();
        updated.non_undoable = silent;
        translations.set(t, updated);
        t += 1;
    }
    assert(translations.deep_view() =~= annotated(before));
    let ghost st = Fragments { strings: strings.deep_view(), formats: formats@ };
    let mut actions: Vec<Action> = Vec::new();
    let mut i: usize = 0;
    assert(actions.deep_view() =~= emit(st, 0));
    while i < strings.len()
        invariant
            i <= strings.len(),
            st == (Fragments { strings: strings.deep_view(), formats: formats@ }),
            actions.deep_view() == emit(st, i as nat),
        decreases strings.len() - i,
    {
        let f = if i < formats.len() {
            formats[i]
        } else {
            0
        };
        let mut more = to_action(strings[i].as_str(), f);
        let ghost head = actions.deep_view();
        let ghost tail = more.deep_view();
        actions.append(&mut more);
        assert(actions.deep_view() =~= head + tail);
        i += 1;
    }
    actions
}

} // verus!
