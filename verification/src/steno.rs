//! The stroke codec: between the text of a chord and its 32-bit id.
//!
//! Bit `i` of an id is set where the chord holds the `i`-th key of
//! [`STENO_ORDER`]. Chord text may use shorthand for common groups of keys,
//! which is rewritten to the keys themselves first.

pub use crate::engine::{Action, Translation};

use crate::text::{chars_of, find, first_index, occurs_at, replace, replace_all};
use vstd::prelude::*;

verus! {

/// The keys of the steno keyboard in their canonical order. Lowercase
/// letters are the right-hand keys.
pub const STENO_ORDER: &'static str = "^+#STKPWHRAO*eufrpblgtsdz";

/// The number of keys.
pub const KEY_COUNT: usize = 25;

/// The number of shorthand spellings.
pub const PSEUDO_COUNT: usize = 26;

/// The keys in canonical order, as a sequence.
pub open spec fn steno_order() -> Seq<char> {
    STENO_ORDER@
}

/// The shorthand spellings, each as the keys it stands for and the
/// shorthand, in the order in which they are rewritten. The order matters:
/// some shorthands are a part of others.
pub open spec fn pseudo_steno() -> Seq<(Seq<char>, Seq<char>)> {
    seq![
        ("gs"@, "tion"@),
        ("frpb"@, "nch"@),
        ("AOeu"@, "ii"@),
        ("AOe"@, "ee"@),
        ("AOu"@, "uu"@),
        ("AO"@, "oo"@),
        ("frp"@, "mp"@),
        ("frb"@, "rv"@),
        ("fp"@, "ch"@),
        ("rb"@, "sh"@),
        ("STKPW"@, "Z"@),
        ("TKPW"@, "G"@),
        ("SKWR"@, "J"@),
        ("TPH"@, "N"@),
        ("KWR"@, "Y"@),
        ("SR"@, "V"@),
        ("TK"@, "D"@),
        ("PW"@, "B"@),
        ("HR"@, "L"@),
        ("TP"@, "F"@),
        ("PH"@, "M"@),
        ("eu"@, "i"@),
        ("pblg"@, "j"@),
        ("pb"@, "n"@),
        ("pl"@, "m"@),
        ("bg"@, "k"@),
    ]
}

/// Shorthand `k`: the keys it stands for, then the shorthand itself.
fn pseudo_pair(k: usize) -> (pair: (&'static str, &'static str))
    requires
        k < PSEUDO_COUNT,
    ensures
        (pair.0@, pair.1@) == pseudo_steno()[k as int],
{
    match k {
        0 => ("gs", "tion"),
        1 => ("frpb", "nch"),
        2 => ("AOeu", "ii"),
        3 => ("AOe", "ee"),
        4 => ("AOu", "uu"),
        5 => ("AO", "oo"),
        6 => ("frp", "mp"),
        7 => ("frb", "rv"),
        8 => ("fp", "ch"),
        9 => ("rb", "sh"),
        10 => ("STKPW", "Z"),
        11 => ("TKPW", "G"),
        12 => ("SKWR", "J"),
        13 => ("TPH", "N"),
        14 => ("KWR", "Y"),
        15 => ("SR", "V"),
        16 => ("TK", "D"),
        17 => ("PW", "B"),
        18 => ("HR", "L"),
        19 => ("TP", "F"),
        20 => ("PH", "M"),
        21 => ("eu", "i"),
        22 => ("pblg", "j"),
        23 => ("pb", "n"),
        24 => ("pl", "m"),
        _ => ("bg", "k"),
    }
}

/// Chord text with the shorthands from number `k` on rewritten, one after
/// the other.
pub open spec fn canonical_from(text: Seq<char>, k: nat) -> Seq<char>
    decreases pseudo_steno().len() - k,
{
    if k >= pseudo_steno().len() {
        text
    } else {
        canonical_from(
            replace_all(text, pseudo_steno()[k as int].1, pseudo_steno()[k as int].0),
            k + 1,
        )
    }
}

/// Chord text in keys alone.
pub open spec fn canonical(text: Seq<char>) -> Seq<char> {
    canonical_from(text, 0)
}

/// Whether every character is a key.
pub open spec fn all_keys(keys: Seq<char>) -> bool {
    forall|i: int| 0 <= i < keys.len() ==> steno_order().contains(#[trigger] keys[i])
}

/// The id with the bit of each of the keys set.
pub open spec fn keys_mask(keys: Seq<char>) -> u32
    decreases keys.len(),
{
    if keys.len() == 0 {
        0
    } else {
        keys_mask(keys.drop_last()) | (1u32 << (first_index(steno_order(), keys.last()) as u32))
    }
}

/// The id of a chord text, or `None` where, shorthands rewritten, it holds a
/// character that is no key.
pub open spec fn steno_id(text: Seq<char>) -> Option<u32> {
    if all_keys(canonical(text)) {
        Some(keys_mask(canonical(text)))
    } else {
        None
    }
}

/// The keys among the first `n` of the canonical order whose bit is set in
/// `id`, in that order.
pub open spec fn keys_below(id: u32, n: nat) -> Seq<char>
    decreases n,
{
    if n == 0 {
        Seq::empty()
    } else if id & (1u32 << ((n - 1) as u32)) != 0 {
        keys_below(id, (n - 1) as nat).push(steno_order()[n - 1])
    } else {
        keys_below(id, (n - 1) as nat)
    }
}

/// The chord text of an id: its keys in canonical order.
pub open spec fn steno_text(id: u32) -> Seq<char> {
    keys_below(id, KEY_COUNT as nat)
}

/// The canonical order has `KEY_COUNT` keys.
pub proof fn lemma_key_count()
    ensures
        steno_order().len() == KEY_COUNT,
{
    reveal_strlit("^+#STKPWHRAO*eufrpblgtsdz");
}

/// Rewrites the shorthands in a chord text.
fn to_canonical(s: &str) -> (keys: Vec<char>)
    ensures
        keys@ == canonical(s@),
{
    let mut keys = chars_of(s);
    let mut k: usize = 0;
    while k < PSEUDO_COUNT
        invariant
            k <= PSEUDO_COUNT,
            pseudo_steno().len() == PSEUDO_COUNT,
            canonical(s@) == canonical_from(keys@, k as nat),
        decreases PSEUDO_COUNT - k,
    {
        let (keys_of, shorthand) = pseudo_pair(k);
        keys = replace(&keys, &chars_of(shorthand), &chars_of(keys_of));
        k += 1;
    }
    keys
}

/// Encodes a chord text; `None` where it holds a character that is no key.
pub fn parse_steno(s: &str) -> (id: Option<u32>)
    ensures
        id == steno_id(s@),
        id matches Some(n) ==> n < 0x200_0000,
{
    let keys = to_canonical(s);
    let order = chars_of(STENO_ORDER);
    proof {
        lemma_key_count();
    }
    let mut id: u32 = 0;
    let mut i: usize = 0;
    assert(keys@.take(0) =~= Seq::<char>::empty());
    while i < keys.len()
        invariant
            i <= keys.len(),
            keys@ == canonical(s@),
            order@ == steno_order(),
            order.len() == KEY_COUNT,
            all_keys(keys@.take(i as int)),
            id == keys_mask(keys@.take(i as int)),
            id < 0x200_0000,
        decreases keys.len() - i,
    {
        let at = find(&order, keys[i], 0);
        assert(order@.skip(0) =~= order@);
        if at >= order.len() {
            proof {
                if steno_order().contains(keys@[i as int]) {
                    let j = choose|j: int|
                        0 <= j < steno_order().len() && steno_order()[j] == keys@[i as int];
                    crate::text::lemma_first_index_bound(steno_order(), keys@[i as int], j);
                }
                assert(!all_keys(keys@));
            }
            return None;
        }
        proof {
            let next = keys@.take(i + 1);
            assert(next.drop_last() =~= keys@.take(i as int));
            assert(next.last() == keys@[i as int]);
            crate::text::lemma_first_index_found(order@, keys@[i as int]);
            assert(order@.contains(keys@[i as int]));
            assert forall|j: int| 0 <= j < next.len() implies steno_order().contains(
                #[trigger] next[j],
            ) by {
                if j < i {
                    assert(next[j] == keys@.take(i as int)[j]);
                }
            }
            let bit = at as u32;
            assert((id | (1u32 << bit)) < 0x200_0000) by (bit_vector)
                requires
                    id < 0x200_0000,
                    bit < 25,
            ;
        }
        id = id | (1u32 << (at as u32));
        i += 1;
    }
    assert(keys@.take(keys.len() as int) =~= keys@);
    Some(id)
}

/// Encodes a chord text.
pub fn steno_to_id(s: &str) -> (id: u32)
    requires
        steno_id(s@) is Some,
    ensures
        steno_id(s@) == Some(id),
        id < 0x200_0000,
{
    match parse_steno(s) {
        Some(id) => id,
        None => 0,
    }
}

/// Decodes an id into its chord text.
pub fn id_to_steno(id: u32) -> (text: String)
    ensures
        text@ == steno_text(id),
{
    let order = chars_of(STENO_ORDER);
    proof {
        lemma_key_count();
    }
    let mut text = String::new();
    let mut n: usize = 0;
    while n < KEY_COUNT
        invariant
            n <= KEY_COUNT,
            order@ == steno_order(),
            order.len() == KEY_COUNT,
            text@ == keys_below(id, n as nat),
        decreases KEY_COUNT - n,
    {
        if id & (1u32 << (n as u32)) != 0 {
            text.push(order[n]);
        }
        n += 1;
    }
    text
}

/// Whether a character is one of the keys, spelled out.
pub open spec fn is_key(c: char) -> bool {
    c == '^' || c == '+' || c == '#' || c == 'S' || c == 'T' || c == 'K'
        || c == 'P' || c == 'W' || c == 'H' || c == 'R' || c == 'A' || c == 'O'
        || c == '*' || c == 'e' || c == 'u' || c == 'f' || c == 'r' || c == 'p'
        || c == 'b' || c == 'l' || c == 'g' || c == 't' || c == 's' || c == 'd'
        || c == 'z'
}

/// The canonical order, key by key.
pub proof fn lemma_order()
    ensures
        steno_order() == seq![
            '^', '+', '#', 'S', 'T', 'K', 'P', 'W', 'H', 'R', 'A', 'O', '*',
            'e', 'u', 'f', 'r', 'p', 'b', 'l', 'g', 't', 's', 'd', 'z',
        ],
        forall|c: char| steno_order().contains(c) == is_key(c),
        forall|n: int|
            0 <= n < KEY_COUNT ==> first_index(steno_order(), #[trigger] steno_order()[n]) == n,
{
    reveal_strlit("^+#STKPWHRAO*eufrpblgtsdz");
    let order = seq![
        '^', '+', '#', 'S', 'T', 'K', 'P', 'W', 'H', 'R', 'A', 'O', '*',
        'e', 'u', 'f', 'r', 'p', 'b', 'l', 'g', 't', 's', 'd', 'z',
    ];
    assert(steno_order() =~= order);
    assert forall|c: char| order.contains(c) == is_key(c) by {
        if is_key(c) {
            let n = choose|n: int| 0 <= n < KEY_COUNT && order[n] == c;
            assert(order[n] == c);
        }
        if order.contains(c) {
            let n = choose|n: int| 0 <= n < order.len() && order[n] == c;
            assert(is_key(order[n]));
        }
    }
    assert forall|n: int| 0 <= n < KEY_COUNT implies first_index(order, #[trigger] order[n])
        == n by {
        crate::text::lemma_first_index(order, order[n], n as nat);
    }
}

/// Whether each key stands before the `n`-th of the canonical order.
pub open spec fn keys_before(keys: Seq<char>, n: nat) -> bool {
    forall|j: int| 0 <= j < keys.len() ==> first_index(steno_order(), #[trigger] keys[j]) < n
}

/// Whether no key occurs twice.
pub open spec fn no_key_twice(keys: Seq<char>) -> bool {
    forall|i: int, j: int| 0 <= i < j < keys.len() ==> keys[i] != keys[j]
}

/// The chord text of an id holds keys only, each once.
pub proof fn lemma_keys_below(id: u32, n: nat)
    requires
        n <= KEY_COUNT,
    ensures
        all_keys(keys_below(id, n)),
        keys_before(keys_below(id, n), n),
        no_key_twice(keys_below(id, n)),
    decreases n,
{
    if n > 0 {
        lemma_order();
        lemma_keys_below(id, (n - 1) as nat);
        let head = keys_below(id, (n - 1) as nat);
        let key = steno_order()[n - 1];
        assert(steno_order().contains(key));
        assert(first_index(steno_order(), key) == n - 1);
        if id & (1u32 << ((n - 1) as u32)) != 0 {
            let all = head.push(key);
            assert forall|j: int| 0 <= j < all.len() implies steno_order().contains(
                #[trigger] all[j],
            ) by {
                if j < head.len() {
                    assert(all[j] == head[j]);
                }
            }
            assert forall|j: int| 0 <= j < all.len() implies first_index(
                steno_order(),
                #[trigger] all[j],
            ) < n by {
                if j < head.len() {
                    assert(all[j] == head[j]);
                }
            }
            assert forall|i: int, j: int| 0 <= i < j < all.len() implies all[i] != all[j] by {
                assert(all[i] == head[i]);
                if j < head.len() {
                    assert(all[j] == head[j]);
                }
            }
        }
    }
}

/// A pattern with a character that the text does not hold occurs nowhere in
/// the text.
pub proof fn lemma_absent(text: Seq<char>, pat: Seq<char>, j: int)
    requires
        all_keys(text),
        0 <= j < pat.len(),
        !is_key(pat[j]),
    ensures
        forall|i: int| !occurs_at(text, i, pat),
{
    lemma_order();
    assert forall|i: int| !occurs_at(text, i, pat) by {
        if occurs_at(text, i, pat) {
            assert(text.subrange(i, i + pat.len())[j] == text[i + j]);
            assert(steno_order().contains(text[i + j]));
        }
    }
}

/// A doubled character occurs nowhere in a text that holds no character
/// twice.
pub proof fn lemma_no_double(text: Seq<char>, c: char, pat: Seq<char>)
    requires
        no_key_twice(text),
        pat.len() == 2,
        pat[0] == c,
        pat[1] == c,
    ensures
        forall|i: int| !occurs_at(text, i, pat),
{
    assert forall|i: int| !occurs_at(text, i, pat) by {
        if occurs_at(text, i, pat) {
            assert(text.subrange(i, i + 2)[0] == text[i]);
            assert(text.subrange(i, i + 2)[1] == text[i + 1]);
        }
    }
}

/// No shorthand occurs in a text that holds keys only, each once.
pub proof fn lemma_no_shorthand(text: Seq<char>, k: nat)
    requires
        all_keys(text),
        no_key_twice(text),
        k < PSEUDO_COUNT,
    ensures
        pseudo_steno().len() == PSEUDO_COUNT,
        forall|i: int| !occurs_at(text, i, pseudo_steno()[k as int].1),
{
    if k == 0 {
        reveal_strlit("tion");
        lemma_absent(text, "tion"@, 1);
    }
    if k == 1 {
        reveal_strlit("nch");
        lemma_absent(text, "nch"@, 0);
    }
    if k == 2 {
        reveal_strlit("ii");
        lemma_absent(text, "ii"@, 0);
    }
    if k == 3 {
        reveal_strlit("ee");
        lemma_no_double(text, 'e', "ee"@);
    }
    if k == 4 {
        reveal_strlit("uu");
        lemma_no_double(text, 'u', "uu"@);
    }
    if k == 5 {
        reveal_strlit("oo");
        lemma_absent(text, "oo"@, 0);
    }
    if k == 6 {
        reveal_strlit("mp");
        lemma_absent(text, "mp"@, 0);
    }
    if k == 7 {
        reveal_strlit("rv");
        lemma_absent(text, "rv"@, 1);
    }
    if k == 8 {
        reveal_strlit("ch");
        lemma_absent(text, "ch"@, 0);
    }
    if k == 9 {
        reveal_strlit("sh");
        lemma_absent(text, "sh"@, 1);
    }
    if k == 10 {
        reveal_strlit("Z");
        lemma_absent(text, "Z"@, 0);
    }
    if k == 11 {
        reveal_strlit("G");
        lemma_absent(text, "G"@, 0);
    }
    if k == 12 {
        reveal_strlit("J");
        lemma_absent(text, "J"@, 0);
    }
    if k == 13 {
        reveal_strlit("N");
        lemma_absent(text, "N"@, 0);
    }
    if k == 14 {
        reveal_strlit("Y");
        lemma_absent(text, "Y"@, 0);
    }
    if k == 15 {
        reveal_strlit("V");
        lemma_absent(text, "V"@, 0);
    }
    if k == 16 {
        reveal_strlit("D");
        lemma_absent(text, "D"@, 0);
    }
    if k == 17 {
        reveal_strlit("B");
        lemma_absent(text, "B"@, 0);
    }
    if k == 18 {
        reveal_strlit("L");
        lemma_absent(text, "L"@, 0);
    }
    if k == 19 {
        reveal_strlit("F");
        lemma_absent(text, "F"@, 0);
    }
    if k == 20 {
        reveal_strlit("M");
        lemma_absent(text, "M"@, 0);
    }
    if k == 21 {
        reveal_strlit("i");
        lemma_absent(text, "i"@, 0);
    }
    if k == 22 {
        reveal_strlit("j");
        lemma_absent(text, "j"@, 0);
    }
    if k == 23 {
        reveal_strlit("n");
        lemma_absent(text, "n"@, 0);
    }
    if k == 24 {
        reveal_strlit("m");
        lemma_absent(text, "m"@, 0);
    }
    if k == 25 {
        reveal_strlit("k");
        lemma_absent(text, "k"@, 0);
    }
}

/// Where the pattern occurs nowhere, nothing is replaced.
pub proof fn lemma_replace_none(text: Seq<char>, from: Seq<char>, to: Seq<char>)
    requires
        forall|i: int| !occurs_at(text, i, from),
    ensures
        replace_all(text, from, to) == text,
    decreases text.len(),
{
    if from.len() > 0 && text.len() >= from.len() {
        let rest = text.subrange(1, text.len() as int);
        assert forall|i: int| !occurs_at(rest, i, from) by {
            if occurs_at(rest, i, from) {
                assert(rest.subrange(i, i + from.len()) =~= text.subrange(
                    i + 1,
                    i + 1 + from.len(),
                ));
                assert(occurs_at(text, i + 1, from));
            }
        }
        lemma_replace_none(rest, from, to);
        assert(!occurs_at(text, 0, from));
        assert(seq![text[0]] + rest =~= text);
    }
}

/// A text of keys alone, each once, is its own canonical form.
pub proof fn lemma_canonical_keys(text: Seq<char>, k: nat)
    requires
        all_keys(text),
        no_key_twice(text),
    ensures
        canonical_from(text, k) == text,
    decreases PSEUDO_COUNT - k,
{
    if k < PSEUDO_COUNT {
        lemma_no_shorthand(text, k);
        lemma_replace_none(text, pseudo_steno()[k as int].1, pseudo_steno()[k as int].0);
        lemma_canonical_keys(text, k + 1);
    } else {
        lemma_no_shorthand(text, 0);
    }
}

/// The bits below bit `n`.
pub open spec fn low_bits(id: u32, n: nat) -> u32 {
    id & (((1u32 << (n as u32)) - 1) as u32)
}

/// The id of the chord text of the keys below `n` holds the bits of the id
/// below bit `n`.
pub proof fn lemma_keys_mask(id: u32, n: nat)
    requires
        n <= KEY_COUNT,
    ensures
        keys_mask(keys_below(id, n)) == low_bits(id, n),
    decreases n,
{
    if n == 0 {
        assert(id & (((1u32 << 0u32) - 1) as u32) == 0) by (bit_vector);
    } else {
        lemma_order();
        lemma_keys_mask(id, (n - 1) as nat);
        let m = (n - 1) as u32;
        let head = keys_below(id, (n - 1) as nat);
        let key = steno_order()[n - 1];
        assert(first_index(steno_order(), key) == n - 1);
        if id & (1u32 << m) != 0 {
            assert(head.push(key).drop_last() =~= head);
            assert((id & (((1u32 << m) - 1) as u32)) | (1u32 << m) == id & (((1u32 << ((m
                + 1) as u32)) - 1) as u32)) by (bit_vector)
                requires
                    m < 25,
                    id & (1u32 << m) != 0,
            ;
        } else {
            assert(id & (((1u32 << m) - 1) as u32) == id & (((1u32 << ((m + 1) as u32))
                - 1) as u32)) by (bit_vector)
                requires
                    m < 25,
                    id & (1u32 << m) == 0,
            ;
        }
    }
}

/// Decoding an id and encoding the text again gives the id back, for every
/// id that the encoder can produce: one with no bit set beyond those of the
/// keys.
pub proof fn law_encode_decode(id: u32)
    requires
        id < 0x200_0000,
    ensures
        steno_id(steno_text(id)) == Some(id),
{
    let text = steno_text(id);
    lemma_keys_below(id, KEY_COUNT as nat);
    lemma_canonical_keys(text, 0);
    lemma_keys_mask(id, KEY_COUNT as nat);
    assert(id & (((1u32 << 25u32) - 1) as u32) == id) by (bit_vector)
        requires
            id < 0x200_0000,
    ;
}

/// A single key is the text of the id with that key's bit alone.
pub proof fn lemma_key_id(n: nat)
    requires
        n < KEY_COUNT,
    ensures
        steno_id(seq![steno_order()[n as int]]) == Some(1u32 << (n as u32)),
{
    lemma_order();
    let key = steno_order()[n as int];
    let text = seq![key];
    assert(steno_order().contains(key));
    lemma_canonical_keys(text, 0);
    assert(text.drop_last() =~= Seq::<char>::empty());
    assert(text.last() == key);
    assert(first_index(steno_order(), key) == n);
    assert(keys_mask(text.drop_last()) == 0);
    let bit = n as u32;
    assert(0u32 | (1u32 << bit) == 1u32 << bit) by (bit_vector);
    assert(keys_mask(text) == 1u32 << bit);
    assert(canonical(text) == text);
}

/// Bit `i` of the id of a run of keys is set exactly where the run holds
/// the `i`-th key of the canonical order.
pub proof fn lemma_bit_is_key(keys: Seq<char>, i: nat)
    requires
        all_keys(keys),
        i < KEY_COUNT,
    ensures
        (keys_mask(keys) & (1u32 << (i as u32)) != 0) == keys.contains(steno_order()[i as int]),
    decreases keys.len(),
{
    lemma_order();
    let bit = i as u32;
    let key = steno_order()[i as int];
    if keys.len() == 0 {
        assert(0u32 & (1u32 << bit) == 0) by (bit_vector);
    } else {
        let head = keys.drop_last();
        let last = keys.last();
        assert forall|j: int| 0 <= j < head.len() implies steno_order().contains(
            #[trigger] head[j],
        ) by {
            assert(head[j] == keys[j]);
        }
        lemma_bit_is_key(head, i);
        assert(steno_order().contains(last));
        crate::text::lemma_first_index_found(steno_order(), last);
        let at = first_index(steno_order(), last);
        assert(at < KEY_COUNT) by {
            let j = choose|j: int| 0 <= j < steno_order().len() && steno_order()[j] == last;
            crate::text::lemma_first_index_bound(steno_order(), last, j);
        }
        let m = keys_mask(head);
        let other = at as u32;
        assert(((m | (1u32 << other)) & (1u32 << bit) != 0) == ((m & (1u32 << bit) != 0) || other
            == bit)) by (bit_vector)
            requires
                other < 25,
                bit < 25,
        ;
        assert((at == i) == (last == key));
        if keys.contains(key) {
            let j = choose|j: int| 0 <= j < keys.len() && keys[j] == key;
            if j < head.len() {
                assert(head[j] == key);
            }
        }
        if head.contains(key) {
            let j = choose|j: int| 0 <= j < head.len() && head[j] == key;
            assert(keys[j] == key);
        }
        if last == key {
            assert(keys[keys.len() - 1] == key);
        }
    }
}

} // verus!
