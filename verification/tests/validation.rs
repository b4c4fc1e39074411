use keybindings::binding::{as_bindings, Binding};
use keybindings::input::BindingsInput;
use keybindings::validate::{report_error, validate_user_bindings, BindingError};

fn owned(items: &[&str]) -> Vec<String> {
    items.iter().map(|s| s.to_string()).collect()
}

fn input(raws: &[&str]) -> BindingsInput {
    BindingsInput(as_bindings(owned(raws)))
}

const HINT: &str =
    "\nKey bindings should be of the form <modifiers>-<key name> e.g:  M-j, M-S-slash, M-C-Up";

#[test]
fn valid_bindings_pass() {
    let names = owned(&["j", "k", "slash"]);
    assert_eq!(validate_user_bindings(&input(&["M-j", "M-S-k", "A-C-slash"]), &names), Ok(()));
}

#[test]
fn no_bindings_pass() {
    assert_eq!(validate_user_bindings(&input(&[]), &[]), Ok(()));
}

#[test]
fn one_duplicate_gives_one_error() {
    let names = owned(&["j", "k"]);
    let out = validate_user_bindings(&input(&["M-j", "M-k", "M-j", "M-S-k"]), &names);
    assert_eq!(out, Err(vec![BindingError::Duplicate { raw: "M-j".to_string() }]));
}

#[test]
fn each_repetition_is_a_duplicate() {
    let names = owned(&["j"]);
    let out = validate_user_bindings(&input(&["M-j", "M-j", "M-j"]), &names);
    assert_eq!(
        out,
        Err(vec![
            BindingError::Duplicate { raw: "M-j".to_string() },
            BindingError::Duplicate { raw: "M-j".to_string() },
        ])
    );
}

#[test]
fn unknown_modifier_is_rejected_with_known_key() {
    let names = owned(&["j"]);
    let b = Binding { raw: "X-j".to_string(), mods: owned(&["X"]), keyname: Some("j".to_string()) };
    let out = validate_user_bindings(&BindingsInput(vec![b]), &names);
    assert_eq!(
        out,
        Err(vec![BindingError::InvalidModifiers { raw: "X-j".to_string(), mods: owned(&["X"]) }])
    );
}

#[test]
fn missing_key_name_is_reported() {
    let names = owned(&["j"]);
    let out = validate_user_bindings(&input(&["M"]), &names);
    assert_eq!(out, Err(vec![BindingError::MissingKeyName { raw: "M".to_string() }]));
}

#[test]
fn unknown_key_name_is_reported() {
    let names = owned(&["j"]);
    let out = validate_user_bindings(&input(&["M-q"]), &names);
    assert_eq!(
        out,
        Err(vec![BindingError::UnknownKeyName { raw: "M-q".to_string(), keyname: "q".to_string() }])
    );
}

#[test]
fn every_problem_is_reported_in_order() {
    let names = owned(&["j", "k"]);
    let out = validate_user_bindings(&input(&["M-j", "X-q", "j", "M-k", "X-q"]), &names);
    assert_eq!(
        out,
        Err(vec![
            BindingError::UnknownKeyName { raw: "X-q".to_string(), keyname: "q".to_string() },
            BindingError::InvalidModifiers { raw: "X-q".to_string(), mods: owned(&["X"]) },
            BindingError::MissingKeyName { raw: "j".to_string() },
            BindingError::InvalidModifiers { raw: "j".to_string(), mods: owned(&["j"]) },
            BindingError::Duplicate { raw: "X-q".to_string() },
            BindingError::UnknownKeyName { raw: "X-q".to_string(), keyname: "q".to_string() },
            BindingError::InvalidModifiers { raw: "X-q".to_string(), mods: owned(&["X"]) },
        ])
    );
}

#[test]
fn empty_modifier_list_is_reported() {
    let names = owned(&["j"]);
    let b = Binding { raw: "-j".to_string(), mods: Vec::new(), keyname: Some("j".to_string()) };
    let out = validate_user_bindings(&BindingsInput(vec![b]), &names);
    assert_eq!(
        out,
        Err(vec![BindingError::InvalidModifiers { raw: "-j".to_string(), mods: Vec::new() }])
    );
}

#[test]
fn report_error_frames_the_message() {
    let b = Binding::parse("M-q");
    assert_eq!(
        report_error("no key name specified", &b),
        format!("'M-q' is an invalid key binding: no key name specified{}", HINT)
    );
}

#[test]
fn duplicate_message() {
    let e = BindingError::Duplicate { raw: "M-j".to_string() };
    assert_eq!(e.message(), "'M-j' is bound as a keybinding more than once");
}

#[test]
fn missing_key_name_message() {
    let e = BindingError::MissingKeyName { raw: "M".to_string() };
    assert_eq!(
        e.message(),
        format!("'M' is an invalid key binding: no key name specified{}", HINT)
    );
}

#[test]
fn unknown_key_name_message() {
    let e = BindingError::UnknownKeyName { raw: "M-q".to_string(), keyname: "q".to_string() };
    assert_eq!(
        e.message(),
        format!(
            "'M-q' is an invalid key binding: 'q' is not a known key: run 'xmodmap -pke' to see valid key names{}",
            HINT
        )
    );
}

#[test]
fn invalid_modifiers_message() {
    let e = BindingError::InvalidModifiers { raw: "X-Y-j".to_string(), mods: owned(&["X", "Y"]) };
    assert_eq!(
        e.message(),
        format!(
            "'X-Y-j' is an invalid key binding: 'X-Y' is an invalid modifer set: valid modifiers are {:?}{}",
            ["A", "M", "S", "C"],
            HINT
        )
    );
}
