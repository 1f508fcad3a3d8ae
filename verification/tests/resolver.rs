use embedded_keypad::keymap::{
    make_layout, make_map, single_bit_index, Key, Keymap, Layout, KEY_BITS, PLACEHOLDER,
};
use embedded_keypad::traits::InnerKeys;

const A: u64 = 1 << 0;
const B: u64 = 1 << 1;
const C: u64 = 1 << 2;
const SHIFT: u64 = 1 << 4;
const ALT: u64 = 1 << 5;
const CTRL: u64 = 1 << 6;

fn table(a: u8, b: u8) -> Vec<u8> {
    let mut t = vec![0u8; 64];
    t[0] = a;
    t[1] = b;
    t
}

fn shape_of(t: &Vec<u8>) -> Vec<u8> {
    make_layout(t, &b"[*|*]".to_vec()).unwrap()
}

fn sample_keymap() -> Keymap {
    let shift_alt = table(b'1', b'2');
    let shift = table(b'A', b'B');
    let alt = table(b'x', b'y');
    let default_table = table(b'a', b'b');
    Keymap {
        modifiers: SHIFT | ALT | CTRL,
        text_modifiers: SHIFT | ALT,
        template: b"[*|*]".to_vec(),
        default_shape: shape_of(&default_table),
        default_table,
        layouts: vec![
            Layout { required: vec![SHIFT, ALT], shape: shape_of(&shift_alt), table: shift_alt },
            Layout { required: vec![SHIFT], shape: shape_of(&shift), table: shift },
            Layout { required: vec![ALT], shape: shape_of(&alt), table: alt },
        ],
    }
}

#[test]
fn one_key_resolves_in_default_table() {
    let km = sample_keymap();
    assert_eq!(km.get_one_char(A), Some(b'a'));
    assert_eq!(km.get_one_char(B), Some(b'b'));
}

#[test]
fn no_key_resolves_to_nothing() {
    let km = sample_keymap();
    assert_eq!(km.get_one_char(0), None);
    assert_eq!(km.get_one_char(SHIFT), None);
}

#[test]
fn two_keys_resolve_to_nothing() {
    let km = sample_keymap();
    assert_eq!(km.get_one_char(A | B), None);
    assert_eq!(km.get_one_char(SHIFT | A | B), None);
}

#[test]
fn blocking_modifier_suppresses_character() {
    let km = sample_keymap();
    assert_eq!(km.get_one_char(CTRL | A), None);
    assert_eq!(km.get_one_char(CTRL | SHIFT | A), None);
}

#[test]
fn text_modifier_selects_its_table() {
    let km = sample_keymap();
    assert_eq!(km.get_one_char(SHIFT | A), Some(b'A'));
    assert_eq!(km.get_one_char(ALT | B), Some(b'y'));
}

#[test]
fn unmapped_position_resolves_to_zero() {
    let km = sample_keymap();
    assert_eq!(km.get_one_char(C), Some(0));
    assert_eq!(km.get_one_char(1 << 63), Some(0));
}

#[test]
fn position_outside_a_short_table_resolves_to_nothing() {
    let mut km = sample_keymap();
    km.default_table = vec![b'a', b'b'];
    assert_eq!(km.get_one_char(B), Some(b'b'));
    assert_eq!(km.get_one_char(C), None);
}

#[test]
fn earlier_table_wins_when_two_match() {
    let km = sample_keymap();
    assert_eq!(km.select(SHIFT | ALT), Some(0));
    assert_eq!(km.get_one_char(SHIFT | ALT | A), Some(b'1'));
    assert_eq!(km.get_layout(SHIFT | ALT), b"[1|2]");

    let mut swapped = sample_keymap();
    swapped.layouts.swap(0, 1);
    assert_eq!(swapped.select(SHIFT | ALT), Some(0));
    assert_eq!(swapped.get_one_char(SHIFT | ALT | A), Some(b'A'));
    assert_eq!(swapped.get_layout(SHIFT | ALT), b"[A|B]");
}

#[test]
fn select_takes_first_full_match() {
    let km = sample_keymap();
    assert_eq!(km.select(0), None);
    assert_eq!(km.select(CTRL), None);
    assert_eq!(km.select(SHIFT), Some(1));
    assert_eq!(km.select(ALT), Some(2));
    assert_eq!(km.select(ALT | CTRL), Some(2));
}

#[test]
fn table_without_requirements_matches_always() {
    let mut km = sample_keymap();
    let t = table(b'p', b'q');
    km.layouts.insert(0, Layout { required: vec![], shape: shape_of(&t), table: t });
    assert_eq!(km.select(0), Some(0));
    assert_eq!(km.get_one_char(A), Some(b'p'));
    assert_eq!(km.get_one_char(SHIFT | A), Some(b'p'));
}

#[test]
fn requirement_group_needs_one_of_its_bits() {
    let mut km = sample_keymap();
    km.layouts = vec![Layout {
        required: vec![SHIFT | ALT],
        shape: vec![],
        table: table(b'g', b'h'),
    }];
    assert_eq!(km.get_one_char(SHIFT | A), Some(b'g'));
    assert_eq!(km.get_one_char(ALT | A), Some(b'g'));
    assert_eq!(km.get_one_char(A), Some(b'a'));
}

#[test]
fn layout_follows_modifiers_only() {
    let km = sample_keymap();
    assert_eq!(km.get_layout(0), b"[a|b]");
    assert_eq!(km.get_layout(A), b"[a|b]");
    assert_eq!(km.get_layout(SHIFT), b"[A|B]");
    assert_eq!(km.get_layout(SHIFT | B), b"[A|B]");
    assert_eq!(km.get_layout(ALT | CTRL), b"[x|y]");
}

#[test]
fn text_modifiers_are_projected() {
    let km = sample_keymap();
    assert_eq!(km.get_text_modifiers(SHIFT | CTRL | A), SHIFT);
    assert_eq!(km.get_text_modifiers(SHIFT | ALT), SHIFT | ALT);
    assert_eq!(km.get_text_modifiers(A), 0);
    assert_eq!(km.get_text_modifiers(0), 0);
}

#[test]
fn single_bit_index_finds_the_bit() {
    assert_eq!(single_bit_index(0), None);
    assert_eq!(single_bit_index(1), Some(0));
    assert_eq!(single_bit_index(2), Some(1));
    assert_eq!(single_bit_index(3), None);
    assert_eq!(single_bit_index(1 << 63), Some(63));
    assert_eq!(single_bit_index((1 << 63) | 1), None);
    assert_eq!(single_bit_index(u64::MAX), None);
}

#[test]
fn make_layout_fills_placeholders_in_order() {
    let t = vec![b'1', b'2', b'3'];
    assert_eq!(make_layout(&t, &b"<*> <*>".to_vec()), Some(b"<1> <2>".to_vec()));
    assert_eq!(make_layout(&t, &b"***".to_vec()), Some(b"123".to_vec()));
    assert_eq!(make_layout(&t, &b"abc".to_vec()), Some(b"abc".to_vec()));
    assert_eq!(make_layout(&t, &Vec::new()), Some(Vec::new()));
}

#[test]
fn make_layout_refuses_too_many_placeholders() {
    let t = vec![b'1', b'2'];
    assert_eq!(make_layout(&t, &b"* * *".to_vec()), None);
    assert_eq!(make_layout(&Vec::new(), &b"*".to_vec()), None);
    assert_eq!(make_layout(&Vec::new(), &b"-".to_vec()), Some(b"-".to_vec()));
}

#[test]
fn key_resolves_through_its_keymap() {
    let km: &'static Keymap = Box::leak(Box::new(sample_keymap()));
    let key = Key { bits: SHIFT | B, keymap: Some(km) };
    assert_eq!(key.get_one_char(), Some(b'B'));
    assert_eq!(key.get_layout(), b"[A|B]");
    assert_eq!(key.get_text_modifiers().bits, SHIFT);
}

#[test]
fn key_without_keymap_resolves_nothing() {
    let key = Key { bits: A, keymap: None };
    assert_eq!(key.get_one_char(), None);
    assert_eq!(key.get_layout(), b"");
    assert_eq!(key.get_text_modifiers().bits, 0);
}

#[test]
fn keys_compare_by_bits() {
    let km: &'static Keymap = Box::leak(Box::new(sample_keymap()));
    assert!(Key { bits: A, keymap: Some(km) } == Key { bits: A, keymap: None });
    assert!(Key { bits: A, keymap: Some(km) } != Key { bits: B, keymap: Some(km) });
}

#[test]
fn empty_key_has_no_bits() {
    assert_eq!(Key::empty().bits, 0);
    assert_eq!(Key::default().bits, 0);
    assert!(Key::default().keymap.is_none());
}

#[test]
fn make_map_places_characters_by_position() {
    let t = make_map(&vec![2, 0, 5], &b"xyz".to_vec()).unwrap();
    let mut expected = vec![0u8; 64];
    expected[2] = b'x';
    expected[0] = b'y';
    expected[5] = b'z';
    assert_eq!(t, expected);
    assert_eq!(make_map(&Vec::new(), &Vec::new()), Some(vec![0u8; 64]));
}

#[test]
fn make_map_lets_the_later_character_win() {
    let t = make_map(&vec![1, 1], &b"pq".to_vec()).unwrap();
    assert_eq!(t[1], b'q');
    assert_eq!(t.len(), 64);
}

#[test]
fn make_map_refuses_bad_input() {
    assert_eq!(make_map(&vec![0, 1], &b"a".to_vec()), None);
    assert_eq!(make_map(&vec![0], &b"ab".to_vec()), None);
    assert_eq!(make_map(&vec![64], &b"a".to_vec()), None);
    assert_eq!(make_map(&vec![0, 64], &b"ab".to_vec()), None);
    assert!(make_map(&vec![63], &b"a".to_vec()).is_some());
}

#[test]
fn made_map_resolves_keys() {
    let mut km = sample_keymap();
    km.default_table = make_map(&vec![1, 0], &b"uv".to_vec()).unwrap();
    assert_eq!(km.get_one_char(A), Some(b'v'));
    assert_eq!(km.get_one_char(B), Some(b'u'));
}

#[test]
fn is_complete_checks_every_table() {
    let mut km = sample_keymap();
    assert!(km.is_complete());
    km.layouts[2].table.pop();
    assert!(!km.is_complete());
    let mut km = sample_keymap();
    km.default_table.push(0);
    assert!(!km.is_complete());
    km.layouts.clear();
    km.default_table.pop();
    assert!(km.is_complete());
}

#[test]
fn constants_have_their_values() {
    assert_eq!(KEY_BITS, 64);
    assert_eq!(PLACEHOLDER, b'*');
}

#[test]
fn built_keymap_resolves_shapes() {
    let mut km = Keymap::new(SHIFT | CTRL, SHIFT, b"(*)(*)".to_vec(), table(b'a', b'b')).unwrap();
    assert_eq!(km.modifiers, SHIFT | CTRL);
    assert_eq!(km.text_modifiers, SHIFT);
    assert_eq!(km.default_shape, b"(a)(b)".to_vec());
    assert!(km.layouts.is_empty());
    assert!(km.push_layout(vec![SHIFT], table(b'A', b'B')));
    assert_eq!(km.layouts.len(), 1);
    assert_eq!(km.layouts[0].required, vec![SHIFT]);
    assert_eq!(km.layouts[0].shape, b"(A)(B)".to_vec());
    assert_eq!(km.get_layout(SHIFT | A), b"(A)(B)");
    assert_eq!(km.get_layout(A), b"(a)(b)");
    assert_eq!(km.get_one_char(SHIFT | A), Some(b'A'));
    assert!(km.is_complete());
}

#[test]
fn builder_refuses_tables_shorter_than_the_template() {
    assert!(Keymap::new(0, 0, b"**".to_vec(), vec![b'a']).is_none());
    let mut km = Keymap::new(SHIFT, SHIFT, b"**".to_vec(), vec![b'a', b'b']).unwrap();
    assert!(!km.push_layout(vec![SHIFT], vec![b'A']));
    assert!(km.layouts.is_empty());
    assert_eq!(km.default_shape, b"ab".to_vec());
    assert!(km.push_layout(vec![SHIFT], vec![b'A', b'B', b'C']));
    assert_eq!(km.layouts[0].shape, b"AB".to_vec());
    assert!(!km.is_complete());
}

#[test]
fn pushed_layouts_keep_declaration_order() {
    let mut km = Keymap::new(SHIFT | ALT, SHIFT | ALT, Vec::new(), table(b'a', b'b')).unwrap();
    assert!(km.push_layout(vec![SHIFT], table(b'A', b'B')));
    assert!(km.push_layout(vec![SHIFT, ALT], table(b'1', b'2')));
    assert_eq!(km.select(SHIFT | ALT), Some(0));
    assert_eq!(km.get_one_char(SHIFT | ALT | B), Some(b'B'));
    assert_eq!(km.select(ALT), None);
    assert_eq!(km.get_one_char(ALT | B), Some(b'b'));
}

#[test]
fn empty_key_has_no_keymap() {
    let key = Key::empty();
    assert_eq!(key.bits, 0);
    assert!(key.keymap.is_none());
    assert_eq!(key.get_one_char(), None);
    assert_eq!(key.get_layout(), b"");
}
