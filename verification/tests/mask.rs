use ret2shell_config::mask::{
    bare_placeholder, marker_prefix, mask_bare_placeholders, mask_with, placeholder_name,
    push_character, valid_name, State,
};

fn masked(document: &str) -> (String, Vec<(String, String)>) {
    let (text, placeholders) = mask_bare_placeholders(document);
    let pairs = placeholders
        .into_iter()
        .map(|placeholder| (placeholder.marker, placeholder.name))
        .collect();
    (text, pairs)
}

fn unchanged(document: &str) {
    assert_eq!(masked(document), (document.to_string(), vec![]));
}

#[test]
fn names_are_letters_digits_and_underscores() {
    assert!(valid_name("_"));
    assert!(valid_name("A1_b"));
    assert!(valid_name("z"));
    assert!(!valid_name(""));
    assert!(!valid_name("1A"));
    assert!(!valid_name("A-B"));
    assert!(!valid_name("A B"));
    assert!(!valid_name("É"));
    assert!(!valid_name("Aé"));
}

#[test]
fn a_quoted_placeholder_is_the_whole_text() {
    assert_eq!(placeholder_name("${HOME}"), Some("HOME"));
    assert_eq!(placeholder_name("${_}"), Some("_"));
    assert_eq!(placeholder_name("${}"), None);
    assert_eq!(placeholder_name("${A"), None);
    assert_eq!(placeholder_name("${"), None);
    assert_eq!(placeholder_name("$A}"), None);
    assert_eq!(placeholder_name("x${A}"), None);
    assert_eq!(placeholder_name("${A}x"), None);
    assert_eq!(placeholder_name("${A}}"), None);
    assert_eq!(placeholder_name("${${A}}"), None);
    assert_eq!(placeholder_name("${é}"), None);
    assert_eq!(placeholder_name(""), None);
}

#[test]
fn a_bare_placeholder_ends_at_the_first_brace() {
    assert_eq!(bare_placeholder("${PORT}"), Some(("PORT", 7)));
    assert_eq!(bare_placeholder("${A}}"), Some(("A", 4)));
    assert_eq!(bare_placeholder("${A}é${B}"), Some(("A", 4)));
    assert_eq!(bare_placeholder("${A"), None);
    assert_eq!(bare_placeholder("${}"), None);
    assert_eq!(bare_placeholder("${A B}"), None);
    assert_eq!(bare_placeholder("${é}"), None);
    assert_eq!(bare_placeholder(" ${A}"), None);
    assert_eq!(bare_placeholder("$"), None);
}

#[test]
fn characters_are_moved_whole() {
    let source = "aé€😀";
    let mut target = String::from(">");
    let mut index = 0;
    push_character(&mut target, source, &mut index);
    assert_eq!((target.as_str(), index), (">a", 1));
    push_character(&mut target, source, &mut index);
    assert_eq!((target.as_str(), index), (">aé", 3));
    push_character(&mut target, source, &mut index);
    assert_eq!((target.as_str(), index), (">aé€", 6));
    push_character(&mut target, source, &mut index);
    assert_eq!((target.as_str(), index), (">aé€😀", 10));
}

#[test]
fn the_prefix_has_the_least_number_that_is_free() {
    assert_eq!(marker_prefix(""), "__RET2SHELL_ENV_0_");
    assert_eq!(marker_prefix("__RET2SHELL_ENV_1_"), "__RET2SHELL_ENV_0_");
    assert_eq!(
        marker_prefix("x__RET2SHELL_ENV_0_é __RET2SHELL_ENV_1_"),
        "__RET2SHELL_ENV_2_"
    );
    let taken: String = (0..12).map(|n| format!("__RET2SHELL_ENV_{n}_")).collect();
    assert_eq!(marker_prefix(&taken), "__RET2SHELL_ENV_12_");
}

#[test]
fn bare_placeholders_become_numbered_strings() {
    assert_eq!(
        masked("port = ${PORT}\nhttps = ${HTTPS} # ${NOT}\n"),
        (
            "port = \"__RET2SHELL_ENV_0_0\"\nhttps = \"__RET2SHELL_ENV_0_1\" # ${NOT}\n"
                .to_string(),
            vec![
                ("__RET2SHELL_ENV_0_0".to_string(), "PORT".to_string()),
                ("__RET2SHELL_ENV_0_1".to_string(), "HTTPS".to_string()),
            ]
        )
    );
    let (text, pairs) = masked(&"${A},".repeat(11));
    assert!(text.ends_with("\"__RET2SHELL_ENV_0_10\","));
    assert_eq!(pairs.len(), 11);
    assert_eq!(pairs[10].0, "__RET2SHELL_ENV_0_10");
}

#[test]
fn markers_do_not_occur_in_the_document() {
    let (text, pairs) = masked("a = '__RET2SHELL_ENV_0_0'\nb = ${B}");
    assert_eq!(
        text,
        "a = '__RET2SHELL_ENV_0_0'\nb = \"__RET2SHELL_ENV_1_0\""
    );
    assert_eq!(
        pairs,
        vec![("__RET2SHELL_ENV_1_0".to_string(), "B".to_string())]
    );
}

#[test]
fn documents_without_bare_placeholders_are_unchanged() {
    unchanged("");
    unchanged("a = 1\n");
    unchanged("a = '${A}'");
    unchanged("a = \"${A}\"");
    unchanged("a = '''\n${A}\n'''");
    unchanged("a = \"\"\"\n${A}\n\"\"\"");
    unchanged("# ${A}");
    unchanged("# ${A}\n");
    unchanged("a = ${1A}");
    unchanged("a = ${A");
    unchanged("é = '€😀'");
}

#[test]
fn escapes_do_not_close_strings() {
    unchanged("a = \"\\\"${A}\"");
    unchanged("a = \"\\\\\\\"${A}\"");
    unchanged("a = \"\"\"\\\"\"\"${A}\"\"\"");
    unchanged("a = \"\\");
    unchanged("a = \"\"\"\\");
    assert_eq!(masked("a = \"\\\\\"${A}").1.len(), 1);
    assert_eq!(masked("a = '\\'${A}").1.len(), 1);
}

#[test]
fn placeholders_are_found_after_strings_and_comments_end() {
    assert_eq!(masked("'a'${A}").0, "'a'\"__RET2SHELL_ENV_0_0\"");
    assert_eq!(masked("\"a\"${A}").0, "\"a\"\"__RET2SHELL_ENV_0_0\"");
    assert_eq!(masked("'''a'''${A}").0, "'''a'''\"__RET2SHELL_ENV_0_0\"");
    assert_eq!(
        masked("\"\"\"a\"\"\"${A}").0,
        "\"\"\"a\"\"\"\"__RET2SHELL_ENV_0_0\""
    );
    assert_eq!(masked("#a\n${A}").0, "#a\n\"__RET2SHELL_ENV_0_0\"");
    assert_eq!(masked("''${A}").0, "''\"__RET2SHELL_ENV_0_0\"");
    unchanged("'''''${A}");
}

#[test]
fn scanning_starts_outside_of_everything() {
    assert_eq!(State::default(), State::Document);
}

#[test]
fn quotes_before_the_closing_ones_belong_to_a_multi_line_string() {
    let marker = "__RET2SHELL_ENV_0_0".to_string();
    let pairs = vec![(marker.clone(), "B".to_string())];
    assert_eq!(
        masked("a = \"\"\"x\"\"\"\"\nb = ${B}"),
        (
            "a = \"\"\"x\"\"\"\"\nb = \"__RET2SHELL_ENV_0_0\"".to_string(),
            pairs.clone()
        )
    );
    for quote in ["\"", "'"] {
        for (count, body) in [(3, "x"), (4, "x"), (5, "x"), (6, ""), (7, ""), (8, "")] {
            let open = if body.is_empty() {
                String::new()
            } else {
                quote.repeat(3)
            };
            let string = format!("{open}{body}{}", quote.repeat(count));
            assert_eq!(
                masked(&format!("a = {string}\nb = ${{B}}")),
                (format!("a = {string}\nb = \"{marker}\""), pairs.clone())
            );
            unchanged(&format!("a = {string}\nb = \"p-${{X}}\"\n"));
            unchanged(&format!("a = {string} # ${{X}}\n"));
        }
        let closed = format!("a = {}x{}", quote.repeat(3), quote.repeat(5));
        assert_eq!(masked(&format!("{closed}${{B}}")).1, pairs);
        unchanged(&format!("{closed}{quote}${{B}}{quote}"));
    }
}

#[test]
fn a_prefix_can_be_given() {
    let (text, placeholders) = mask_with("a = ${A}\nb = '${B}'", "m-");
    assert_eq!(text, "a = \"m-0\"\nb = '${B}'");
    assert_eq!(placeholders.len(), 1);
    assert_eq!(placeholders[0].marker, "m-0");
    assert_eq!(placeholders[0].name, "A");
}

#[test]
fn masking_a_masked_document_changes_nothing() {
    for document in [
        "a = ${A}\nb = [${B}, '${C}'] # ${D}\n",
        "\"a\"${A}''${B}'''x'''${C}",
        "\"\"\"x\"\"\"\"\"${A}",
        "$${A}${${B}",
        "\"\"${A}",
        "\"\"${A} '${B}'",
        "\"\"\"x\"\"\"${A}\ny = 1",
    ] {
        let (once, pairs) = masked(document);
        assert!(!pairs.is_empty());
        unchanged(&once);
    }
    for document in [
        "\"\"${A}\"\"\"\"${B}",
        "\"\"\"x\"\"\"${A} '${B}'\"\n${C}",
        "\"\"\"x\"\"\"${A} \"${B}\"",
    ] {
        let (once, _) = masked(document);
        let (twice, pairs) = masked(&once);
        assert_eq!(twice == once, pairs.is_empty());
    }
    let (once, _) = masked("\"\"${A}\"\"\"\"${B}");
    assert_ne!(masked(&once).0, once);
}
