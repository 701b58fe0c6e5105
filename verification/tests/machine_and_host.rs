use moreover::engine::{Action, Key};
use moreover::inject::{key_events, KeyEvent};
use moreover::machine::{decode_packet, next_step, Frame, ReadEvent, ReadStep};
use moreover::steno::steno_to_id;
use moreover::text::{chars_of, find, matches_at, replace, split_lines, string_of};

/// A key map with the steno order in its first 25 places.
fn keymap() -> [char; 42] {
    let mut map = ['#'; 42];
    for (i, c) in "^+#STKPWHRAO*eufrpblgtsdz".chars().enumerate() {
        map[i] = c;
    }
    map
}

fn packet(keys: &[usize]) -> [u8; 6] {
    let mut p = [0x80u8, 0, 0, 0, 0, 0];
    for k in keys {
        p[k / 7] |= 0x40 >> (k % 7);
    }
    p
}

#[test]
fn packet_without_marker_is_idle() {
    assert_eq!(decode_packet(&[0x7f, 0x7f, 0, 0, 0, 0], &keymap()), Frame::Idle);
    assert_eq!(decode_packet(&[0; 6], &keymap()), Frame::Idle);
}

#[test]
fn packet_bits_map_through_the_key_map() {
    assert_eq!(decode_packet(&packet(&[]), &keymap()), Frame::Chord(0));
    assert_eq!(decode_packet(&packet(&[0]), &keymap()), Frame::Chord(1));
    assert_eq!(decode_packet(&[0xc0, 0, 0, 0, 0, 0], &keymap()), Frame::Chord(1));
    assert_eq!(decode_packet(&[0x81, 0x40, 0, 0, 0, 0], &keymap()), Frame::Chord(0xc0));
    assert_eq!(
        decode_packet(&packet(&[5, 10, 4]), &keymap()),
        Frame::Chord(steno_to_id("KAT"))
    );
    // The high bit of the later bytes stands for no key.
    assert_eq!(decode_packet(&[0x80, 0x80, 0x80, 0x80, 0x80, 0x80], &keymap()), Frame::Chord(0));
}

#[test]
fn keys_that_share_a_character_count_once() {
    assert_eq!(
        decode_packet(&packet(&[2, 30, 41]), &keymap()),
        Frame::Chord(steno_to_id("#"))
    );
}

#[test]
fn key_text_may_use_shorthand() {
    let mut map = keymap();
    map[25] = 'N';
    assert_eq!(decode_packet(&packet(&[25]), &map), Frame::Chord(steno_to_id("TPH")));
}

#[test]
fn key_map_with_unknown_key_is_malformed() {
    let mut map = keymap();
    map[40] = '\0';
    assert_eq!(decode_packet(&packet(&[40]), &map), Frame::Malformed);
    assert_eq!(decode_packet(&packet(&[39]), &map), Frame::Chord(steno_to_id("#")));
}

#[test]
fn reader_steps() {
    let map = keymap();
    assert_eq!(next_step(&ReadEvent::Packet(packet(&[3])), &map), ReadStep::Stroke(8));
    assert_eq!(next_step(&ReadEvent::Packet(packet(&[])), &map), ReadStep::Skip);
    assert_eq!(next_step(&ReadEvent::Packet([0; 6]), &map), ReadStep::Again);
    assert_eq!(next_step(&ReadEvent::TimedOut, &map), ReadStep::Again);
    assert_eq!(next_step(&ReadEvent::BrokenPipe, &map), ReadStep::Reconnect);
    assert_eq!(next_step(&ReadEvent::Failed, &map), ReadStep::Fail);
    let mut bad = keymap();
    bad[0] = ' ';
    assert_eq!(next_step(&ReadEvent::Packet(packet(&[0])), &bad), ReadStep::BadKey);
}

fn text(s: &str) -> Vec<Action> {
    s.chars().map(|c| Action::Text(c.to_string())).collect()
}

#[test]
fn text_is_taken_back_with_backspaces() {
    let mut del = text("ab");
    del.push(Action::KeyClick(Key::Tab));
    del.push(Action::KeyDown(Key::Shift));
    del.push(Action::Text("c".to_string()));
    assert_eq!(
        key_events(&del, &vec![]),
        vec![
            KeyEvent::Click(Key::Backspace),
            KeyEvent::Click(Key::Backspace),
            KeyEvent::Click(Key::Backspace)
        ]
    );
}

#[test]
fn actions_are_performed_in_order() {
    let add = vec![
        Action::Text("a".to_string()),
        Action::Text("\n".to_string()),
        Action::KeyDown(Key::Control),
        Action::KeyClick(Key::Layout('c')),
        Action::KeyUp(Key::Control),
        Action::Text("\n\n".to_string()),
    ];
    assert_eq!(
        key_events(&text("x"), &add),
        vec![
            KeyEvent::Click(Key::Backspace),
            KeyEvent::Type("a".to_string()),
            KeyEvent::Click(Key::Return),
            KeyEvent::Down(Key::Control),
            KeyEvent::Click(Key::Layout('c')),
            KeyEvent::Up(Key::Control),
            KeyEvent::Type("\n\n".to_string()),
        ]
    );
    assert_eq!(key_events(&vec![], &vec![]), vec![]);
}

fn chars(s: &str) -> Vec<char> {
    s.chars().collect()
}

#[test]
fn text_helpers() {
    assert_eq!(chars_of("añb"), vec!['a', 'ñ', 'b']);
    assert_eq!(string_of(&chars("hello"), 1, 4), "ell");
    assert_eq!(string_of(&chars("hello"), 2, 2), "");
    assert!(matches_at(&chars("hello"), 2, &chars("llo")));
    assert!(!matches_at(&chars("hello"), 3, &chars("llo")));
    assert!(matches_at(&chars("hello"), 5, &chars("")));
    assert!(!matches_at(&chars("hello"), 6, &chars("")));
    assert_eq!(find(&chars("a,b,c"), ',', 0), 1);
    assert_eq!(find(&chars("a,b,c"), ',', 2), 3);
    assert_eq!(find(&chars("a,b,c"), ',', 4), 5);
}

#[test]
fn replace_goes_left_to_right_without_overlap() {
    assert_eq!(replace(&chars("aaa"), &chars("aa"), &chars("b")), chars("ba"));
    assert_eq!(replace(&chars("abcabc"), &chars("bc"), &chars("")), chars("aa"));
    assert_eq!(replace(&chars("abc"), &chars("x"), &chars("y")), chars("abc"));
    assert_eq!(replace(&chars("abc"), &chars(""), &chars("y")), chars("abc"));
    assert_eq!(replace(&chars("ab"), &chars("abc"), &chars("y")), chars("ab"));
    assert_eq!(replace(&chars("a.b"), &chars("."), &chars("..")), chars("a..b"));
}

#[test]
fn lines_are_split_at_line_feeds() {
    let rows = |s: &str| -> Vec<String> {
        split_lines(&chars(s)).iter().map(|l| l.iter().collect()).collect()
    };
    assert_eq!(rows(""), Vec::<String>::new());
    assert_eq!(rows("a"), vec!["a"]);
    assert_eq!(rows("a\n"), vec!["a"]);
    assert_eq!(rows("a\n\nb"), vec!["a", "", "b"]);
    assert_eq!(rows("a\r\nb\r"), vec!["a", "b\r"]);
    assert_eq!(rows("\n"), vec![""]);
}
