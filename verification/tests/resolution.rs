use keybindings::binding::Modifier;
use keybindings::input::{BindingsInput, TemplateGroup};
use keybindings::keymap::keynames_from_xmodmap;
use keybindings::resolve::{parse_key_binding, resolve, CodeMap, KeyCode, Resolution};
use keybindings::validate::validate_user_bindings;

const ALT: u16 = 8;
const SUPER: u16 = 64;
const SHIFT: u16 = 1;
const CONTROL: u16 = 4;

fn owned(items: &[&str]) -> Vec<String> {
    items.iter().map(|s| s.to_string()).collect()
}

fn table(pairs: &[(&str, u8)]) -> CodeMap {
    let mut codes = CodeMap::new();
    for (name, code) in pairs {
        codes.insert(name.to_string(), *code);
    }
    codes
}

#[test]
fn modifier_bits_are_those_of_the_protocol() {
    assert_eq!(Modifier::Alt.mask(), ALT);
    assert_eq!(Modifier::Super.mask(), SUPER);
    assert_eq!(Modifier::Shift.mask(), SHIFT);
    assert_eq!(Modifier::Control.mask(), CONTROL);
}

#[test]
fn code_map_keeps_the_last_code_of_a_name() {
    let mut codes = table(&[("j", 44), ("k", 45)]);
    assert_eq!(codes.len(), 2);
    assert_eq!(codes.get("j"), Some(44));
    assert_eq!(codes.get("q"), None);
    assert!(codes.contains_key("k"));
    assert!(!codes.contains_key("K"));
    codes.insert("j".to_string(), 50);
    assert_eq!(codes.len(), 2);
    assert_eq!(codes.get("j"), Some(50));
}

#[test]
fn super_j_resolves() {
    let codes = table(&[("j", 44)]);
    assert_eq!(parse_key_binding("M-j", &codes), Some(KeyCode { mask: SUPER, code: 44 }));
}

#[test]
fn unknown_key_name_is_not_found() {
    let codes = table(&[("j", 44)]);
    assert_eq!(parse_key_binding("M-nonexistent", &codes), None);
    assert_eq!(parse_key_binding("M-nonexistent", &CodeMap::new()), None);
    assert_eq!(resolve("M-nonexistent", &codes), Resolution::NotFound);
}

#[test]
fn unknown_key_name_wins_over_unknown_modifier() {
    let codes = table(&[("j", 44)]);
    assert_eq!(resolve("X-nonexistent", &codes), Resolution::NotFound);
    assert_eq!(parse_key_binding("X-nonexistent", &codes), None);
}

#[test]
fn masks_are_combined() {
    let codes = table(&[("j", 44), ("Return", 36)]);
    assert_eq!(
        parse_key_binding("M-S-j", &codes),
        Some(KeyCode { mask: SUPER | SHIFT, code: 44 })
    );
    assert_eq!(
        parse_key_binding("A-C-Return", &codes),
        Some(KeyCode { mask: ALT | CONTROL, code: 36 })
    );
    assert_eq!(
        parse_key_binding("A-M-S-C-j", &codes),
        Some(KeyCode { mask: 77, code: 44 })
    );
}

#[test]
fn mask_ignores_order_and_repetition() {
    let codes = table(&[("j", 44)]);
    let expected = Some(KeyCode { mask: SUPER | SHIFT, code: 44 });
    assert_eq!(parse_key_binding("S-M-j", &codes), expected);
    assert_eq!(parse_key_binding("M-S-M-S-j", &codes), expected);
}

#[test]
fn single_token_has_no_key_to_find() {
    let codes = table(&[("j", 44)]);
    assert_eq!(resolve("j", &codes), Resolution::NotFound);
    assert_eq!(parse_key_binding("j", &codes), None);
}

#[test]
fn unknown_modifier_of_known_key_is_named() {
    let codes = table(&[("j", 44)]);
    assert_eq!(resolve("X-j", &codes), Resolution::UnknownModifier("X".to_string()));
    assert_eq!(resolve("M-Q-X-j", &codes), Resolution::UnknownModifier("Q".to_string()));
    assert_eq!(resolve("-j", &codes), Resolution::UnknownModifier(String::new()));
}

#[test]
fn resolve_gives_the_key_code() {
    let codes = table(&[("j", 44)]);
    assert_eq!(resolve("C-j", &codes), Resolution::Resolved(KeyCode { mask: CONTROL, code: 44 }));
}

#[test]
fn literals_and_templates_validate_and_resolve() {
    let codes = table(&[("j", 44), ("1", 10), ("2", 11)]);
    let names = owned(&["j", "1", "2"]);
    let groups = vec![TemplateGroup { templates: owned(&["M-{}"]), keynames: owned(&["1", "2"]) }];
    let input = BindingsInput::parse(owned(&["M-j", "M-S-j"]), groups).unwrap();
    assert_eq!(validate_user_bindings(&input, &names), Ok(()));
    let resolved: Vec<(String, Option<KeyCode>)> = input
        .0
        .iter()
        .map(|b| (b.raw.clone(), parse_key_binding(&b.raw, &codes)))
        .collect();
    assert_eq!(
        resolved,
        vec![
            ("M-j".to_string(), Some(KeyCode { mask: SUPER, code: 44 })),
            ("M-S-j".to_string(), Some(KeyCode { mask: SUPER | SHIFT, code: 44 })),
            ("M-1".to_string(), Some(KeyCode { mask: SUPER, code: 10 })),
            ("M-2".to_string(), Some(KeyCode { mask: SUPER, code: 11 })),
        ]
    );
}

#[test]
fn validated_bindings_resolve_against_the_same_text() {
    let text = "keycode 44 = j J\nkeycode 45 = k K\n";
    let names = keynames_from_xmodmap(text);
    let codes = keybindings::keymap::keycodes_from_xmodmap(text).unwrap();
    let input = BindingsInput::parse(owned(&["M-j", "M-S-K"]), Vec::new()).unwrap();
    assert_eq!(validate_user_bindings(&input, &names), Ok(()));
    assert_eq!(parse_key_binding("M-j", &codes), Some(KeyCode { mask: SUPER, code: 44 }));
    assert_eq!(parse_key_binding("M-S-K", &codes), Some(KeyCode { mask: SUPER | SHIFT, code: 45 }));
}
