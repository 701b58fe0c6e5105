use moreover::steno::{id_to_steno, parse_steno, steno_to_id, STENO_ORDER};

#[test]
fn empty_text_is_zero() {
    assert_eq!(steno_to_id(""), 0);
    assert_eq!(parse_steno(""), Some(0));
}

#[test]
fn each_key_has_its_bit() {
    for (i, c) in STENO_ORDER.chars().enumerate() {
        assert_eq!(steno_to_id(&c.to_string()), 1u32 << i);
    }
}

#[test]
fn keys_are_combined() {
    assert_eq!(steno_to_id("KAT"), (1 << 5) | (1 << 10) | (1 << 4));
    assert_eq!(steno_to_id("#STA"), (1 << 2) | (1 << 3) | (1 << 4) | (1 << 10));
    assert_eq!(steno_to_id("*"), 4096);
}

#[test]
fn a_key_twice_counts_once() {
    assert_eq!(steno_to_id("SS"), 1 << 3);
}

#[test]
fn shorthand_is_rewritten() {
    assert_eq!(steno_to_id("N"), steno_to_id("TPH"));
    assert_eq!(steno_to_id("i"), steno_to_id("eu"));
    assert_eq!(steno_to_id("Z"), steno_to_id("STKPW"));
    assert_eq!(steno_to_id("tion"), steno_to_id("gs"));
    assert_eq!(steno_to_id("nch"), steno_to_id("frpb"));
    assert_eq!(steno_to_id("k"), steno_to_id("bg"));
}

#[test]
fn shorthand_order_matters() {
    // "ii" is rewritten before "i": two "i" in a row are AOeu, not eu twice.
    assert_eq!(steno_to_id("ii"), steno_to_id("AOeu"));
    assert_eq!(steno_to_id("j"), steno_to_id("pblg"));
    assert_eq!(steno_to_id("ee"), steno_to_id("AOe"));
}

#[test]
fn unknown_character_is_refused() {
    assert_eq!(parse_steno("x"), None);
    assert_eq!(parse_steno("KAT "), None);
    assert_eq!(parse_steno("E"), None);
}

#[test]
fn decode_lists_keys_in_order() {
    assert_eq!(id_to_steno(0), "");
    assert_eq!(id_to_steno(steno_to_id("KAT")), "TKA");
    assert_eq!(id_to_steno((1 << 25) - 1), STENO_ORDER);
}

#[test]
fn encode_undoes_decode() {
    let mut id: u32 = 0;
    while id < (1 << 25) {
        assert_eq!(steno_to_id(&id_to_steno(id)), id);
        id += 104_729;
    }
    assert_eq!(steno_to_id(&id_to_steno((1 << 25) - 1)), (1 << 25) - 1);
    for i in 0..25 {
        assert_eq!(steno_to_id(&id_to_steno(1 << i)), 1 << i);
    }
}

#[test]
fn encoded_ids_stay_below_bit_25() {
    assert!(steno_to_id(STENO_ORDER) < (1 << 25));
    assert!(steno_to_id("Ztionnch") < (1 << 25));
}

#[test]
fn bit_is_set_where_the_key_occurs() {
    for text in ["KAT", "#STA", "TPH", "eufrpblgtsdz", "^+", ""] {
        let id = steno_to_id(text);
        for (i, c) in STENO_ORDER.chars().enumerate() {
            assert_eq!(id & (1 << i) != 0, text.contains(c));
        }
    }
}
