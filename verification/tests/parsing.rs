use keybindings::binding::{
    as_bindings, has_valid_modifiers, is_valid_keyname, Binding, Modifier,
};
use keybindings::text::{join_with, split_on};

fn owned(items: &[&str]) -> Vec<String> {
    items.iter().map(|s| s.to_string()).collect()
}

fn rejoined(b: &Binding) -> String {
    let mut tokens = b.mods.clone();
    if let Some(k) = &b.keyname {
        tokens.push(k.clone());
    }
    join_with(&tokens, '-')
}

#[test]
fn split_keeps_empty_segments() {
    assert_eq!(split_on("M-S-j", '-'), owned(&["M", "S", "j"]));
    assert_eq!(split_on("", '-'), owned(&[""]));
    assert_eq!(split_on("-", '-'), owned(&["", ""]));
    assert_eq!(split_on("a--b-", '-'), owned(&["a", "", "b", ""]));
    assert_eq!(split_on("plain", '-'), owned(&["plain"]));
}

#[test]
fn split_handles_wide_characters() {
    assert_eq!(split_on("é-ß-越", '-'), owned(&["é", "ß", "越"]));
}

#[test]
fn join_puts_separator_between_tokens() {
    assert_eq!(join_with(&owned(&[]), '-'), "");
    assert_eq!(join_with(&owned(&["M"]), '-'), "M");
    assert_eq!(join_with(&owned(&["M", "S", "j"]), '-'), "M-S-j");
    assert_eq!(join_with(&owned(&["", ""]), '-'), "-");
}

#[test]
fn parse_takes_last_token_as_key_name() {
    let b = Binding::parse("M-j");
    assert_eq!(b.raw, "M-j");
    assert_eq!(b.mods, owned(&["M"]));
    assert_eq!(b.keyname, Some("j".to_string()));
}

#[test]
fn parse_keeps_modifier_order() {
    let b = Binding::parse("M-S-C-A-slash");
    assert_eq!(b.mods, owned(&["M", "S", "C", "A"]));
    assert_eq!(b.keyname, Some("slash".to_string()));
}

#[test]
fn parse_single_token_has_no_key_name() {
    let b = Binding::parse("j");
    assert_eq!(b.raw, "j");
    assert_eq!(b.mods, owned(&["j"]));
    assert_eq!(b.keyname, None);
}

#[test]
fn parse_empty_string_has_no_key_name() {
    let b = Binding::parse("");
    assert_eq!(b.mods, owned(&[""]));
    assert_eq!(b.keyname, None);
}

#[test]
fn parse_trailing_separator_gives_empty_key_name() {
    let b = Binding::parse("M-");
    assert_eq!(b.mods, owned(&["M"]));
    assert_eq!(b.keyname, Some(String::new()));
}

#[test]
fn parse_then_join_gives_the_text_back() {
    for raw in ["M-j", "M-S-j", "A-C-M-S-Return", "j", "", "-", "M--j", "M-", "-j"] {
        let b = Binding::parse(raw);
        assert_eq!(rejoined(&b), raw);
        assert_eq!(b.raw, raw);
    }
}

#[test]
fn as_bindings_reads_each_string() {
    let bindings = as_bindings(owned(&["M-j", "M-S-k", "lonely"]));
    assert_eq!(bindings.len(), 3);
    assert_eq!(bindings[0], Binding::parse("M-j"));
    assert_eq!(bindings[1], Binding::parse("M-S-k"));
    assert_eq!(bindings[2].keyname, None);
    assert_eq!(bindings[2].mods, owned(&["lonely"]));
}

#[test]
fn as_bindings_of_nothing_is_nothing() {
    assert_eq!(as_bindings(Vec::new()), Vec::new());
}

#[test]
fn modifier_tokens_are_the_four_letters() {
    assert_eq!(Modifier::from_token("A"), Some(Modifier::Alt));
    assert_eq!(Modifier::from_token("M"), Some(Modifier::Super));
    assert_eq!(Modifier::from_token("S"), Some(Modifier::Shift));
    assert_eq!(Modifier::from_token("C"), Some(Modifier::Control));
    assert_eq!(Modifier::from_token("X"), None);
    assert_eq!(Modifier::from_token("m"), None);
    assert_eq!(Modifier::from_token(""), None);
    assert_eq!(Modifier::from_token("MM"), None);
    assert_eq!(Modifier::from_token("M "), None);
}

#[test]
fn valid_modifiers_need_known_tokens() {
    assert!(has_valid_modifiers(&Binding::parse("M-j")));
    assert!(has_valid_modifiers(&Binding::parse("M-S-A-C-j")));
    assert!(has_valid_modifiers(&Binding::parse("M-M-j")));
    assert!(!has_valid_modifiers(&Binding::parse("X-j")));
    assert!(!has_valid_modifiers(&Binding::parse("M-X-j")));
    assert!(!has_valid_modifiers(&Binding::parse("-j")));
    assert!(!has_valid_modifiers(&Binding::parse("j")));
}

#[test]
fn empty_modifier_list_is_not_valid() {
    let b = Binding { raw: "-j".to_string(), mods: Vec::new(), keyname: Some("j".to_string()) };
    assert!(!has_valid_modifiers(&b));
}

#[test]
fn key_name_has_to_be_known() {
    let names = owned(&["j", "k", "Return"]);
    assert!(is_valid_keyname(&Binding::parse("M-j"), &names));
    assert!(is_valid_keyname(&Binding::parse("M-Return"), &names));
    assert!(!is_valid_keyname(&Binding::parse("M-return"), &names));
    assert!(!is_valid_keyname(&Binding::parse("M-x"), &names));
    assert!(!is_valid_keyname(&Binding::parse("j"), &names));
    assert!(!is_valid_keyname(&Binding::parse("M-j"), &[]));
}
