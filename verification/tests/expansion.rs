use keybindings::binding::Binding;
use keybindings::expand::{expand_templates, TemplateError};
use keybindings::input::{BindingsInput, TemplateGroup};

fn owned(items: &[&str]) -> Vec<String> {
    items.iter().map(|s| s.to_string()).collect()
}

fn binding(raw: &str, mods: &[&str], key: &str) -> Binding {
    Binding { raw: raw.to_string(), mods: owned(mods), keyname: Some(key.to_string()) }
}

#[test]
fn expansion_is_a_cross_product_in_template_order() {
    let out = expand_templates(owned(&["M-{}", "M-S-{}"]), owned(&["1", "2", "3"])).unwrap();
    assert_eq!(
        out,
        vec![
            binding("M-1", &["M"], "1"),
            binding("M-2", &["M"], "2"),
            binding("M-3", &["M"], "3"),
            binding("M-S-1", &["M", "S"], "1"),
            binding("M-S-2", &["M", "S"], "2"),
            binding("M-S-3", &["M", "S"], "3"),
        ]
    );
}

#[test]
fn expansion_counts_multiply() {
    let templates = owned(&["M-{}", "M-S-{}", "A-{}", "C-A-{}"]);
    let keys = owned(&["a", "b", "c", "d", "e"]);
    let out = expand_templates(templates.clone(), keys.clone()).unwrap();
    assert_eq!(out.len(), 20);
    for (i, t) in templates.iter().enumerate() {
        for (j, k) in keys.iter().enumerate() {
            let b = &out[i * keys.len() + j];
            assert_eq!(b.raw, t.replace("{}", k));
            assert_eq!(b.keyname.as_ref(), Some(k));
        }
    }
}

#[test]
fn expansion_agrees_with_parsing() {
    let out = expand_templates(owned(&["M-{}", "M-S-{}"]), owned(&["j", "Return"])).unwrap();
    for b in &out {
        assert_eq!(&Binding::parse(&b.raw), b);
    }
}

#[test]
fn expansion_without_templates_or_keys_is_empty() {
    assert_eq!(expand_templates(Vec::new(), owned(&["1"])), Ok(Vec::new()));
    assert_eq!(expand_templates(owned(&["M-{}"]), Vec::new()), Ok(Vec::new()));
}

#[test]
fn bare_placeholder_has_no_modifiers() {
    let out = expand_templates(owned(&["{}"]), owned(&["j"])).unwrap();
    assert_eq!(out, vec![binding("-j", &[], "j")]);
}

#[test]
fn template_without_placeholder_is_refused() {
    let err = expand_templates(owned(&["M-x"]), owned(&["1", "2"])).unwrap_err();
    assert_eq!(err, TemplateError { template: "M-x".to_string() });
}

#[test]
fn first_malformed_template_is_reported() {
    let templates = owned(&["M-{}", "M-{}-S", "M", "A-{}"]);
    let err = expand_templates(templates, owned(&["1"])).unwrap_err();
    assert_eq!(err.template, "M-{}-S");
}

#[test]
fn malformed_template_is_refused_without_key_names() {
    assert!(expand_templates(owned(&["M-{ }"]), Vec::new()).is_err());
    assert!(expand_templates(owned(&[""]), Vec::new()).is_err());
    assert!(expand_templates(owned(&["M-{}x"]), Vec::new()).is_err());
}

#[test]
fn template_error_message_names_the_template() {
    let err = TemplateError { template: "M-x".to_string() };
    assert_eq!(err.message(), "'M-x' is an invalid template: expected '<Modifiers>-{}'");
}

#[test]
fn input_collects_literals_then_groups() {
    let groups = vec![
        TemplateGroup { templates: owned(&["M-{}"]), keynames: owned(&["1", "2"]) },
        TemplateGroup { templates: owned(&["M-S-{}", "A-{}"]), keynames: owned(&["a"]) },
    ];
    let BindingsInput(bindings) = BindingsInput::parse(owned(&["M-j", "M-S-j"]), groups).unwrap();
    let raws: Vec<&str> = bindings.iter().map(|b| b.raw.as_str()).collect();
    assert_eq!(raws, vec!["M-j", "M-S-j", "M-1", "M-2", "M-S-a", "A-a"]);
    assert_eq!(bindings[1], binding("M-S-j", &["M", "S"], "j"));
    assert_eq!(bindings[4], binding("M-S-a", &["M", "S"], "a"));
}

#[test]
fn input_without_groups_is_the_literal_list() {
    let BindingsInput(bindings) = BindingsInput::parse(owned(&["M-j"]), Vec::new()).unwrap();
    assert_eq!(bindings, vec![binding("M-j", &["M"], "j")]);
}

#[test]
fn input_stops_at_first_malformed_template() {
    let groups = vec![
        TemplateGroup { templates: owned(&["M-{}"]), keynames: owned(&["1"]) },
        TemplateGroup { templates: owned(&["M-{}", "bad"]), keynames: owned(&["2"]) },
        TemplateGroup { templates: owned(&["worse"]), keynames: owned(&["3"]) },
    ];
    let err = BindingsInput::parse(owned(&["M-j"]), groups).unwrap_err();
    assert_eq!(err.template, "bad");
}
