use ret2shell_config::document::{read_document, ConfigTable, ConfigValue};
use ret2shell_config::env::{Environment, ResolveError, Variable};
use ret2shell_config::fields::{field_kind, FieldKind};
use ret2shell_config::overrides::{
    configure, fit, fit_as, overridden_path, override_fields, overriding_names, put_field,
    split_segments,
};

fn set(name: &str, value: &str) -> Variable {
    Variable {
        name: Some(name.to_string()),
        value: Some(value.to_string()),
    }
}

fn text(value: &str) -> ConfigValue {
    ConfigValue::Text(value.to_string())
}

fn strings(texts: &[&str]) -> Vec<String> {
    texts.iter().map(|text| text.to_string()).collect()
}

fn read(document: &str) -> ConfigTable {
    read_document(document).unwrap()
}

fn put(document: &str, path: &[&str], held: &str) -> ConfigTable {
    put_field(read(document), &strings(path), "V", held)
}

#[test]
fn names_are_split_at_double_underscores_and_lowered() {
    assert_eq!(split_segments("AUTH__SIGNING_KEY"), ["auth", "signing_key"]);
    assert_eq!(split_segments("A__B__C"), ["a", "b", "c"]);
    assert_eq!(split_segments("A___B"), ["a", "_b"]);
    assert_eq!(split_segments("A____B"), ["a", "", "b"]);
    assert_eq!(split_segments("A_"), ["a_"]);
    assert_eq!(split_segments("A__"), ["a", ""]);
    assert_eq!(split_segments(""), [""]);
    assert_eq!(split_segments("ÉZ@[z"), ["Éz@[z"]);
}

#[test]
fn overriding_variables_name_a_section_and_a_field() {
    assert_eq!(
        overridden_path("R2S_CONFIG__AUTH__SIGNING_KEY"),
        Some(strings(&["auth", "signing_key"]))
    );
    assert_eq!(
        overridden_path("R2S_CONFIG__CLUSTER__REGISTRY__USERNAME"),
        Some(strings(&["cluster", "registry", "username"]))
    );
    assert_eq!(overridden_path("R2S_CONFIG__AUTH"), None);
    assert_eq!(overridden_path("R2S_CONFIG__AUTH__"), None);
    assert_eq!(overridden_path("R2S_CONFIG____KEY"), None);
    assert_eq!(overridden_path("R2S_CONFIG__"), None);
    assert_eq!(overridden_path("R2S_CONFIG_AUTH__KEY"), None);
    assert_eq!(overridden_path("r2s_config__auth__key"), None);
    assert_eq!(overridden_path(""), None);
}

#[test]
fn texts_and_left_out_fields_become_texts_and_other_values_values() {
    assert_eq!(fit(&None, "V", "1"), text("1"));
    assert_eq!(fit(&Some(text("x")), "V", "1"), text("1"));
    assert_eq!(
        fit(&Some(ConfigValue::Integer(2)), "V", "1"),
        ConfigValue::Integer(1)
    );
    assert_eq!(
        fit(&Some(ConfigValue::Integer(2)), "V", "true"),
        ConfigValue::Boolean(true)
    );
    assert_eq!(fit(&Some(ConfigValue::Boolean(true)), "V", "no"), text("no"));
}

#[test]
fn fields_are_put_in_at_their_path_and_in_key_order() {
    assert_eq!(
        put("[s]\na = 'x'\nb = 1\n", &["s", "a"], "y"),
        read("[s]\na = 'y'\nb = 1\n")
    );
    assert_eq!(
        put("[s]\na = 'x'\nb = 1\n", &["s", "b"], "2"),
        read("[s]\na = 'x'\nb = 2\n")
    );
    assert_eq!(
        put("[s]\na = 'x'\nc = 1\n", &["s", "b"], "2"),
        read("[s]\na = 'x'\nb = '2'\nc = 1\n")
    );
    assert_eq!(put("z = 1\n", &["s", "t", "u"], "x"), read("z = 1\n[s.t]\nu = 'x'\n"));
    assert_eq!(put("s = 1\n", &["s", "t"], "x"), read("[s]\nt = 'x'\n"));
    assert_eq!(put("s = 1\n", &[], "x"), read("s = 1\n"));
}

#[test]
fn overriding_variables_are_put_in_by_the_order_of_their_names() {
    let environment = Environment::new(vec![
        set("R2S_CONFIG__S__A", "1"),
        set("OTHER", "x"),
        set("R2S_CONFIG__B__C", "2"),
        set("R2S_CONFIG__S__a", "3"),
        set("R2S_CONFIG__S", "4"),
    ]);
    assert_eq!(
        overriding_names(&environment),
        ["R2S_CONFIG__B__C", "R2S_CONFIG__S__A", "R2S_CONFIG__S__a"]
    );
    let (after, names) =
        override_fields(read("[s]\na = 'x'\n"), strings(&["Z"]), &environment).unwrap();
    assert_eq!(after, read("[b]\nc = '2'\n[s]\na = '3'\n"));
    assert_eq!(
        names,
        ["R2S_CONFIG__B__C", "R2S_CONFIG__S__A", "R2S_CONFIG__S__a", "Z"]
    );
}

#[test]
fn overriding_variables_have_to_be_unicode() {
    let environment = Environment::new(vec![
        set("R2S_CONFIG__S__A", "1"),
        Variable {
            name: Some("R2S_CONFIG__S__B".to_string()),
            value: None,
        },
    ]);
    assert!(matches!(
        override_fields(read(""), vec![], &environment),
        Err(ResolveError::NotUnicode(name)) if name == "R2S_CONFIG__S__B"
    ));
}

#[test]
fn a_document_is_resolved_before_its_fields_are_overridden() {
    let (table, names) = configure(
        "[s]\na = ${A}\nb = '${B}'\n",
        vec![set("A", "1"), set("B", "x"), set("R2S_CONFIG__S__A", "2")],
    )
    .unwrap();
    assert_eq!(table, read("[s]\na = 2\nb = 'x'\n"));
    assert_eq!(names, ["A", "B", "R2S_CONFIG__S__A"]);
    assert!(matches!(
        configure("[s]\na = ${A}\n", vec![set("R2S_CONFIG__S__A", "2")]),
        Err(ResolveError::NotFound(name)) if name == "A"
    ));
    let (table, names) = configure("[s]\na = 1\n", vec![set("OTHER", "2")]).unwrap();
    assert_eq!(table, read("[s]\na = 1\n"));
    assert!(names.is_empty());
}

#[test]
fn the_fields_of_known_sections_have_a_kind() {
    for (section, field, kind) in [
        ("auth", "signing_key", FieldKind::Text),
        ("auth", "buffer_time", FieldKind::Value),
        ("auth", "expires_time", FieldKind::Value),
        ("auth", "port", FieldKind::Open),
        ("captcha", "enabled", FieldKind::Value),
        ("captcha", "difficulty", FieldKind::Value),
        ("captcha", "validator", FieldKind::Text),
        ("captcha", "signing_key", FieldKind::Open),
        ("server", "api_base_path", FieldKind::Text),
        ("server", "cors_origins", FieldKind::Text),
        ("server", "external_domain", FieldKind::Text),
        ("server", "external_https", FieldKind::Value),
        ("server", "host", FieldKind::Text),
        ("server", "port", FieldKind::Value),
        ("server", "enabled", FieldKind::Open),
        ("email", "port", FieldKind::Open),
    ] {
        assert_eq!(field_kind(&strings(&[section, field])), kind);
    }
    assert_eq!(field_kind(&strings(&["server"])), FieldKind::Open);
    assert_eq!(
        field_kind(&strings(&["server", "port", "x"])),
        FieldKind::Open
    );
}

#[test]
fn the_kind_of_a_field_decides_what_is_put_in() {
    let number = Some(ConfigValue::Integer(2));
    assert_eq!(fit_as(FieldKind::Text, &number, "V", "1"), text("1"));
    assert_eq!(
        fit_as(FieldKind::Value, &None, "V", "1"),
        ConfigValue::Integer(1)
    );
    assert_eq!(
        fit_as(FieldKind::Value, &Some(text("x")), "V", "true"),
        ConfigValue::Boolean(true)
    );
    assert_eq!(fit_as(FieldKind::Value, &None, "V", "no"), text("no"));
    assert_eq!(fit_as(FieldKind::Open, &None, "V", "1"), text("1"));
    assert_eq!(
        fit_as(FieldKind::Open, &number, "V", "1"),
        ConfigValue::Integer(1)
    );
}

#[test]
fn left_out_fields_are_put_in_by_their_kind() {
    assert_eq!(
        put("[server]\nhost = 'h'\n", &["server", "port"], "9090"),
        read("[server]\nhost = 'h'\nport = 9090\n")
    );
    assert_eq!(
        put("", &["captcha", "enabled"], "true"),
        read("[captcha]\nenabled = true\n")
    );
    assert_eq!(
        put("[server]\nport = '${P}'\n", &["server", "port"], "9090"),
        read("[server]\nport = 9090\n")
    );
    assert_eq!(
        put("[auth]\nsigning_key = 5\n", &["auth", "signing_key"], "77"),
        read("[auth]\nsigning_key = '77'\n")
    );
    assert_eq!(
        put("[email]\n", &["email", "port"], "25"),
        read("[email]\nport = '25'\n")
    );
}
