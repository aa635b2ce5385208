use ret2shell_config::document::{read_document, ConfigTable, ConfigValue};
use ret2shell_config::env::{
    collect_replacements, parse_toml_value, resolve, resolve_table, resolve_values, sole_value,
    variable, Environment, Replacement, ResolveError, Variable,
};
use ret2shell_config::mask::Placeholder;
use ret2shell_config::names::NameSet;
use ret2shell_config::reading::{choose_reading, holds_prefix, prefix_beside, read_masked, Reading};

fn set(name: &str, value: &str) -> Variable {
    Variable {
        name: Some(name.to_string()),
        value: Some(value.to_string()),
    }
}

fn text(value: &str) -> ConfigValue {
    ConfigValue::Text(value.to_string())
}

fn table(entries: Vec<(&str, ConfigValue)>) -> ConfigTable {
    ConfigTable {
        entries: entries
            .into_iter()
            .map(|(key, value)| (key.to_string(), value))
            .collect(),
    }
}

fn replacement(marker: &str, name: &str, value: ConfigValue) -> Replacement {
    Replacement {
        marker: marker.to_string(),
        name: name.to_string(),
        value,
    }
}

#[test]
fn documents_are_read_into_values_in_key_order() {
    let document = "z = 1.5\na = true\n[t]\nd = 1979-05-27\nl = [1, 'x', [2]]\n";
    let read = read_document(document).unwrap();
    let moment: toml::value::Datetime = "1979-05-27".parse().unwrap();
    assert_eq!(
        read,
        table(vec![
            ("a", ConfigValue::Boolean(true)),
            (
                "t",
                ConfigValue::Table(table(vec![
                    ("d", ConfigValue::Datetime(moment)),
                    (
                        "l",
                        ConfigValue::Array(vec![
                            ConfigValue::Integer(1),
                            text("x"),
                            ConfigValue::Array(vec![ConfigValue::Integer(2)]),
                        ])
                    ),
                ]))
            ),
            ("z", ConfigValue::Float(1.5f64.to_bits())),
        ])
    );
    assert!(read_document("a = ").is_err());
    assert_eq!(read_document("").unwrap(), table(vec![]));
}

#[test]
fn copies_of_values_are_equal() {
    let read = read_document("a = [{b = 'c', d = 2.0}, 1]").unwrap();
    assert_eq!(read.clone(), read);
}

#[test]
fn later_variables_win_and_nameless_ones_are_passed_over() {
    let environment = Environment::new(vec![
        set("A", "first"),
        Variable {
            name: None,
            value: Some("lost".to_string()),
        },
        set("A", "second"),
        Variable {
            name: Some("B".to_string()),
            value: None,
        },
    ]);
    assert_eq!(variable(&environment, "A").unwrap(), "second");
    assert!(
        matches!(variable(&environment, "B"), Err(ResolveError::NotUnicode(name)) if name == "B")
    );
    assert!(
        matches!(variable(&environment, "C"), Err(ResolveError::NotFound(name)) if name == "C")
    );
}

#[test]
fn variables_are_read_as_values() {
    assert_eq!(
        parse_toml_value("A", "9090").unwrap(),
        ConfigValue::Integer(9090)
    );
    assert_eq!(parse_toml_value("A", "'x'").unwrap(), text("x"));
    assert_eq!(
        parse_toml_value("A", "{b = [true]}").unwrap(),
        ConfigValue::Table(table(vec![(
            "b",
            ConfigValue::Array(vec![ConfigValue::Boolean(true)])
        )]))
    );
    assert_eq!(
        parse_toml_value("A", "1 # comment").unwrap(),
        ConfigValue::Integer(1)
    );
    for invalid in ["", "x", "1\nextra = true", "1\n[section]", "1\nvalue = 2"] {
        assert!(matches!(
            parse_toml_value("A", invalid),
            Err(ResolveError::InvalidValue(name)) if name == "A"
        ));
    }
}

#[test]
fn only_a_sole_value_counts() {
    assert_eq!(
        sole_value("A", Ok(table(vec![("value", text("x"))]))).unwrap(),
        text("x")
    );
    assert!(sole_value("A", Ok(table(vec![]))).is_err());
    assert!(sole_value("A", Ok(table(vec![("values", text("x"))]))).is_err());
    assert!(sole_value(
        "A",
        Ok(table(vec![("extra", text("y")), ("value", text("x"))]))
    )
    .is_err());
    assert!(matches!(
        sole_value("A", read_document("=")),
        Err(ResolveError::InvalidValue(name)) if name == "A"
    ));
}

#[test]
fn placeholders_are_looked_up_and_read_in_order() {
    let environment = Environment::new(vec![set("A", "1"), set("B", "x")]);
    let placeholder = |marker: &str, name: &str| Placeholder {
        marker: marker.to_string(),
        name: name.to_string(),
    };
    let found = collect_replacements(vec![placeholder("m0", "A")], &environment);
    let found = match found {
        Ok(found) => found,
        Err(_) => panic!("the variable is set to a value"),
    };
    assert_eq!(found.len(), 1);
    assert_eq!(found[0].marker, "m0");
    assert_eq!(found[0].name, "A");
    assert_eq!(found[0].value, ConfigValue::Integer(1));
    assert!(matches!(
        collect_replacements(
            vec![
                placeholder("m0", "A"),
                placeholder("m1", "B"),
                placeholder("m2", "C")
            ],
            &environment
        ),
        Err(ResolveError::InvalidValue(name)) if name == "B"
    ));
    assert!(matches!(
        collect_replacements(
            vec![placeholder("m0", "C"), placeholder("m1", "B")],
            &environment
        ),
        Err(ResolveError::NotFound(name)) if name == "C"
    ));
}

#[test]
fn values_are_resolved_through_and_through() {
    let environment = Environment::new(vec![set("A", "${B}"), set("B", "never")]);
    let replacements = vec![replacement("m0", "P", ConfigValue::Integer(7))];
    let mut referenced = NameSet::new();
    let mut value = ConfigValue::Array(vec![
        text("${A}"),
        ConfigValue::Table(table(vec![("k", text("m0")), ("l", text("x${A}"))])),
        ConfigValue::Integer(3),
    ]);
    assert!(resolve_values(&mut value, &environment, &replacements, &mut referenced).is_ok());
    assert_eq!(
        value,
        ConfigValue::Array(vec![
            text("${B}"),
            ConfigValue::Table(table(vec![
                ("k", ConfigValue::Integer(7)),
                ("l", text("x${A}"))
            ])),
            ConfigValue::Integer(3),
        ])
    );
    assert_eq!(
        referenced.into_names(),
        vec!["A".to_string(), "P".to_string()]
    );
}

#[test]
fn what_comes_after_an_error_stays_as_it_was() {
    let environment = Environment::new(vec![set("A", "a")]);
    let mut referenced = NameSet::new();
    let mut value = ConfigValue::Array(vec![text("${A}"), text("${C}"), text("${A}")]);
    assert!(matches!(
        resolve_values(&mut value, &environment, &vec![], &mut referenced),
        Err(ResolveError::NotFound(name)) if name == "C"
    ));
    assert_eq!(
        value,
        ConfigValue::Array(vec![text("a"), text("${C}"), text("${A}")])
    );
    assert_eq!(referenced.into_names(), vec!["A".to_string()]);
}

#[test]
fn later_replacements_of_a_marker_win() {
    let environment = Environment::new(vec![]);
    let replacements = vec![
        replacement("m", "A", text("first")),
        replacement("m", "B", text("second")),
    ];
    let (resolved, names) =
        resolve_table(table(vec![("k", text("m"))]), &environment, &replacements).unwrap();
    assert_eq!(resolved, table(vec![("k", text("second"))]));
    assert_eq!(names, vec!["B".to_string()]);
}

#[test]
fn documents_are_resolved_and_the_variables_listed() {
    let (resolved, names) = resolve(
        "b = ${B}\na = '${A}'\nagain = \"${B}\"\n# ${C}\n",
        vec![set("B", "[1, 2]"), set("A", "it's \"quoted\"\\n")],
    )
    .unwrap();
    assert_eq!(
        resolved,
        table(vec![
            ("a", text("it's \"quoted\"\\n")),
            ("again", text("[1, 2]")),
            (
                "b",
                ConfigValue::Array(vec![ConfigValue::Integer(1), ConfigValue::Integer(2)])
            ),
        ])
    );
    assert_eq!(names, vec!["A".to_string(), "B".to_string()]);
}

#[test]
fn documents_without_placeholders_do_not_depend_on_variables() {
    let document = "a = 1\nb = ['x', 2.5]\n";
    let (resolved, names) = resolve(document, vec![set("A", "x")]).unwrap();
    assert_eq!(resolved, read_document(document).unwrap());
    assert!(names.is_empty());
}

#[test]
fn a_placeholder_in_place_of_a_key_is_not_replaced_but_has_to_be_set() {
    assert!(matches!(
        resolve("${KEY} = 1", vec![]),
        Err(ResolveError::NotFound(name)) if name == "KEY"
    ));
    let (resolved, names) = resolve("${KEY} = 1", vec![set("KEY", "2")]).unwrap();
    assert_eq!(
        resolved,
        table(vec![("__RET2SHELL_ENV_0_0", ConfigValue::Integer(1))])
    );
    assert!(names.is_empty());
}

#[test]
fn errors_come_in_order() {
    assert!(matches!(
        resolve("a = ${A}\n[", vec![]),
        Err(ResolveError::Document(_))
    ));
    assert!(matches!(
        resolve("a = '${Q}'\nb = ${B}", vec![]),
        Err(ResolveError::NotFound(name)) if name == "B"
    ));
    assert!(matches!(
        resolve("b = '${B}'\na = '${A}'", vec![]),
        Err(ResolveError::NotFound(name)) if name == "A"
    ));
    assert!(matches!(
        resolve("a = ${A}", vec![set("A", "x y")]),
        Err(ResolveError::InvalidValue(name)) if name == "A"
    ));
    assert!(matches!(
        resolve(
            "a = ${A}",
            vec![Variable { name: Some("A".to_string()), value: None }]
        ),
        Err(ResolveError::NotUnicode(name)) if name == "A"
    ));
}

#[test]
fn variables_that_a_document_does_not_mention_do_not_matter() {
    let document = "a = ${A}\nb = '${B}'\n";
    let few = resolve(document, vec![set("A", "1"), set("B", "x")]).unwrap();
    let many = resolve(
        document,
        vec![set("Z", "z"), set("B", "x"), set("A", "1"), set("C", "${A}")],
    )
    .unwrap();
    assert_eq!(few, many);
}

#[test]
fn texts_that_are_written_with_escapes_are_not_taken_for_markers() {
    let (resolved, names) = resolve(
        "a = \"\\u005F_RET2SHELL_ENV_0_0\"\nb = ${B}",
        vec![set("B", "7")],
    )
    .unwrap();
    assert_eq!(
        resolved,
        table(vec![
            ("a", text("__RET2SHELL_ENV_0_0")),
            ("b", ConfigValue::Integer(7)),
        ])
    );
    assert_eq!(names, vec!["B".to_string()]);

    let (resolved, names) = resolve(
        "a = [\"\\u005F_RET2SHELL_ENV_0_0\", \"\\x5f_RET2SHELL_ENV_1_0\"]\n${B} = 1\nc = ${C}",
        vec![set("B", "7"), set("C", "8")],
    )
    .unwrap();
    assert_eq!(
        resolved,
        table(vec![
            ("__RET2SHELL_ENV_2_0", ConfigValue::Integer(1)),
            (
                "a",
                ConfigValue::Array(vec![
                    text("__RET2SHELL_ENV_0_0"),
                    text("__RET2SHELL_ENV_1_0"),
                ])
            ),
            ("c", ConfigValue::Integer(8)),
        ])
    );
    assert_eq!(names, vec!["C".to_string()]);
}

#[test]
fn placeholders_that_are_written_with_escapes_are_placeholders() {
    let (resolved, names) = resolve("a = \"\\u0024{A}\"", vec![set("A", "x")]).unwrap();
    assert_eq!(resolved, table(vec![("a", text("x"))]));
    assert_eq!(names, vec!["A".to_string()]);
}

#[test]
fn the_markers_of_a_reading_are_its_placeholders() {
    let Reading { table: read, placeholders } =
        read_masked("a = ${A}\nb = '${B}'").unwrap();
    assert_eq!(
        read,
        table(vec![("a", text("__RET2SHELL_ENV_0_0")), ("b", text("${B}"))])
    );
    assert_eq!(placeholders.len(), 1);
    assert_eq!(placeholders[0].marker, "__RET2SHELL_ENV_0_0");
    assert_eq!(placeholders[0].name, "A");

    let Reading { table: read, placeholders } =
        read_masked("a = ${A}\nb = \"\\u005F_RET2SHELL_ENV_0_\"").unwrap();
    assert_eq!(
        read,
        table(vec![
            ("a", text("__RET2SHELL_ENV_1_0")),
            ("b", text("__RET2SHELL_ENV_0_")),
        ])
    );
    assert_eq!(placeholders[0].marker, "__RET2SHELL_ENV_1_0");
    assert!(read_masked("a = ${A} ${B}").is_err());
}

#[test]
fn prefixes_are_looked_for_in_texts_and_keys() {
    let nested = table(vec![(
        "k",
        ConfigValue::Array(vec![
            ConfigValue::Integer(1),
            ConfigValue::Table(table(vec![("xm-", text("y__RET2SHELL_ENV_0_1"))])),
        ]),
    )]);
    assert!(holds_prefix(&nested, "m-"));
    assert!(holds_prefix(&nested, "__RET2SHELL_ENV_0_"));
    assert!(!holds_prefix(&nested, "__RET2SHELL_ENV_1_"));
    assert!(!holds_prefix(&table(vec![]), "m-"));
    assert_eq!(prefix_beside("", &nested), "__RET2SHELL_ENV_1_");
    assert_eq!(
        prefix_beside("__RET2SHELL_ENV_1_", &nested),
        "__RET2SHELL_ENV_2_"
    );
}

#[test]
fn documents_without_dollar_signs_are_read_as_they_are() {
    let document = "a = '__RET2SHELL_ENV_0_0'\nb = \"\"\"x\"\"\"\"\"\n[c]\nd = [true]\n";
    let (resolved, names) = resolve(
        document,
        vec![set("A", "x"), set("R2S_CONFIG__C__D", "false")],
    )
    .unwrap();
    assert_eq!(resolved, read_document(document).unwrap());
    assert!(names.is_empty());
    assert!(matches!(
        (resolve("a = b", vec![set("b", "1")]), read_document("a = b")),
        (Err(ResolveError::Document(refused)), Err(error)) if refused == error
    ));
}

#[test]
fn which_variables_are_put_in_depends_on_the_document() {
    let document = "a = ${A}\nb = ['${B}', '${A}']\n";
    let (_, few) = resolve(document, vec![set("A", "1"), set("B", "x")]).unwrap();
    let (_, many) = resolve(
        document,
        vec![set("A", "['${C}']"), set("B", "${A}"), set("C", "c")],
    )
    .unwrap();
    assert_eq!(few, many);
    assert_eq!(few, vec!["A".to_string(), "B".to_string()]);
}

#[test]
fn the_names_of_an_environment_are_listed_once_and_in_order() {
    let environment = Environment::new(vec![
        set("B", "1"),
        set("A", "2"),
        Variable { name: None, value: None },
        set("B", "3"),
    ]);
    assert_eq!(
        environment.names().into_names(),
        vec!["A".to_string(), "B".to_string()]
    );
    let mut names = NameSet::new();
    names.insert("C".to_string());
    names.insert_all(&vec!["D".to_string(), "C".to_string(), "A".to_string()]);
    assert_eq!(
        names.into_names(),
        vec!["A".to_string(), "C".to_string(), "D".to_string()]
    );
}

#[test]
fn the_first_reading_counts_unless_the_second_shows_its_prefix() {
    let reading = |value: &str| Reading {
        table: table(vec![("k", text(value))]),
        placeholders: vec![],
    };
    let chosen = choose_reading("m-", reading("m-0"), reading("n-0"));
    assert_eq!(chosen.table, table(vec![("k", text("m-0"))]));
    let chosen = choose_reading("m-", reading("m-0"), reading("own m-"));
    assert_eq!(chosen.table, table(vec![("k", text("own m-"))]));
}
