use ret2shell_config::auth;
use ret2shell_config::captcha::{self, ValidatorType};
use ret2shell_config::config::{config_error, LoadStep};
use ret2shell_config::document::{read_document, ConfigTable, ConfigValue};
use ret2shell_config::env::{ResolveError, Variable};
use ret2shell_config::server;
use ret2shell_config::{ConfigError, GlobalConfig};

const DOCUMENT: &str = r#"
[auth]
signing_key = '${AUTH_SIGNING_KEY}'
buffer_time = ${AUTH_BUFFER_TIME}
expires_time = 86400

[captcha]
enabled = ${CAPTCHA_ENABLED}
difficulty = ${CAPTCHA_DIFFICULTY}
validator = '${CAPTCHA_VALIDATOR}'

[server]
api_base_path = '/api'
cors_origins = '*'
external_domain = '${EXTERNAL_DOMAIN}'
external_https = ${EXTERNAL_HTTPS}
host = '127.0.0.1'
port = ${SERVER_PORT}
"#;

fn variables(entries: &[(&str, &str)]) -> Vec<Variable> {
    entries
        .iter()
        .map(|(name, value)| Variable {
            name: Some(name.to_string()),
            value: Some(value.to_string()),
        })
        .collect()
}

fn valid_variables() -> Vec<Variable> {
    variables(&[
        ("AUTH_SIGNING_KEY", "8080's secret\nsecond line"),
        ("AUTH_BUFFER_TIME", "60"),
        ("CAPTCHA_ENABLED", "true"),
        ("CAPTCHA_DIFFICULTY", "4"),
        ("CAPTCHA_VALIDATOR", "h_captcha"),
        ("EXTERNAL_DOMAIN", "ctf.example.com"),
        ("EXTERNAL_HTTPS", "false"),
        ("SERVER_PORT", "9090"),
    ])
}

fn get<'a>(table: &'a ConfigTable, key: &str) -> Option<&'a ConfigValue> {
    table
        .entries
        .iter()
        .find(|entry| entry.0 == key)
        .map(|entry| &entry.1)
}

fn to_toml(value: &ConfigValue) -> toml::Value {
    match value {
        ConfigValue::Text(text) => toml::Value::String(text.clone()),
        ConfigValue::Integer(number) => toml::Value::Integer(*number),
        ConfigValue::Float(bits) => toml::Value::Float(f64::from_bits(*bits)),
        ConfigValue::Boolean(truth) => toml::Value::Boolean(*truth),
        ConfigValue::Datetime(moment) => toml::Value::Datetime(*moment),
        ConfigValue::Array(items) => toml::Value::Array(items.iter().map(to_toml).collect()),
        ConfigValue::Table(table) => toml::Value::Table(
            table
                .entries
                .iter()
                .map(|entry| (entry.0.clone(), to_toml(&entry.1)))
                .collect(),
        ),
    }
}

fn missing(key: &'static str) -> toml::de::Error {
    <toml::de::Error as serde::de::Error>::missing_field(key)
}

fn field<T: serde::de::DeserializeOwned>(
    table: &ConfigTable,
    key: &'static str,
) -> Result<T, toml::de::Error> {
    to_toml(get(table, key).ok_or_else(|| missing(key))?).try_into()
}

fn section<'a>(
    root: &'a ConfigTable,
    key: &str,
) -> Result<Option<&'a ConfigTable>, toml::de::Error> {
    match get(root, key) {
        None => Ok(None),
        Some(ConfigValue::Table(table)) => Ok(Some(table)),
        Some(other) => to_toml(other)
            .try_into::<toml::Table>()
            .map(|_| None),
    }
}

fn auth_section(table: &ConfigTable) -> Result<auth::Config, toml::de::Error> {
    Ok(auth::Config {
        signing_key: field(table, "signing_key")?,
        buffer_time: field(table, "buffer_time")?,
        expires_time: field(table, "expires_time")?,
    })
}

fn captcha_section(table: &ConfigTable) -> Result<captcha::Config, toml::de::Error> {
    let validator: String = field(table, "validator")?;
    Ok(captcha::Config {
        enabled: field(table, "enabled")?,
        difficulty: match get(table, "difficulty") {
            Some(value) => Some(to_toml(value).try_into()?),
            None => None,
        },
        validator: if validator == "h_captcha" {
            ValidatorType::HCaptcha
        } else {
            ValidatorType::Other(validator)
        },
    })
}

fn server_section(table: &ConfigTable) -> Result<server::Config, toml::de::Error> {
    Ok(server::Config {
        api_base_path: field(table, "api_base_path")?,
        cors_origins: field(table, "cors_origins")?,
        external_domain: field(table, "external_domain")?,
        external_https: field(table, "external_https")?,
        host: field(table, "host")?,
        port: field(table, "port")?,
    })
}

fn deserialize(root: ConfigTable) -> Result<GlobalConfig, toml::de::Error> {
    Ok(GlobalConfig {
        auditor: section(&root, "auditor")?.cloned(),
        auth: section(&root, "auth")?.map(auth_section).transpose()?,
        bucket: section(&root, "bucket")?.cloned(),
        cache: section(&root, "cache")?.cloned(),
        captcha: section(&root, "captcha")?.map(captcha_section).transpose()?,
        cluster: section(&root, "cluster")?.cloned(),
        database: section(&root, "database")?.cloned(),
        email: section(&root, "email")?.cloned(),
        logging: section(&root, "logging")?.cloned(),
        media: section(&root, "media")?.cloned(),
        queue: section(&root, "queue")?.cloned(),
        server: section(&root, "server")?.map(server_section).transpose()?,
    })
}

fn from_document(document: &str, variables: Vec<Variable>) -> Result<GlobalConfig, ConfigError> {
    GlobalConfig::from_document(document, variables, deserialize)
}

fn some_toml_error() -> toml::de::Error {
    match read_document("= 1") {
        Err(error) => error,
        Ok(_) => panic!("a document cannot start with an equals sign"),
    }
}

#[test]
fn resolves_quoted_strings_and_typed_bare_values() {
    let config = from_document(DOCUMENT, valid_variables()).unwrap();

    let auth = config.auth.unwrap();
    assert_eq!(auth.signing_key, "8080's secret\nsecond line");
    assert_eq!(auth.buffer_time, 60);

    let captcha = config.captcha.unwrap();
    assert!(captcha.enabled);
    assert_eq!(captcha.difficulty, Some(4));
    assert_eq!(captcha.validator, ValidatorType::HCaptcha);

    let server = config.server.unwrap();
    assert_eq!(server.external_domain, "ctf.example.com");
    assert!(!server.external_https);
    assert_eq!(server.port, 9090);
}

#[test]
fn ignores_placeholders_in_comments_and_larger_strings() {
    let document = r#"
# ignored = ${COMMENT_ONLY}
[auth]
signing_key = 'prefix-${NOT_A_PLACEHOLDER}'
buffer_time = 60
expires_time = 120
"#;
    let config = from_document(document, variables(&[])).unwrap();

    assert_eq!(
        config.auth.unwrap().signing_key,
        "prefix-${NOT_A_PLACEHOLDER}"
    );
}

#[test]
fn requires_referenced_environment_variables() {
    let document = r#"
[auth]
signing_key = '${AUTH_SIGNING_KEY}'
buffer_time = 60
expires_time = 120
"#;
    let error = from_document(document, variables(&[])).unwrap_err();

    assert!(matches!(error, ConfigError::EnvironmentNotFound(_)));
    assert!(error.message().contains("AUTH_SIGNING_KEY"));
}

#[test]
fn rejects_bare_values_that_are_not_toml() {
    for invalid in ["not-a-number", "9090\nextra = true"] {
        let mut variables = valid_variables();
        variables.retain(|variable| variable.name.as_deref() != Some("SERVER_PORT"));
        variables.push(Variable {
            name: Some("SERVER_PORT".into()),
            value: Some(invalid.into()),
        });

        let error = from_document(DOCUMENT, variables).unwrap_err();

        assert!(matches!(error, ConfigError::EnvironmentValueInvalid(_)));
        assert!(error.message().contains("SERVER_PORT"));
        assert!(!error.message().contains(invalid));
    }
}

#[test]
fn rejects_values_that_do_not_match_the_config_field_type() {
    let mut variables = valid_variables();
    variables.retain(|variable| variable.name.as_deref() != Some("SERVER_PORT"));
    variables.push(Variable {
        name: Some("SERVER_PORT".into()),
        value: Some("true".into()),
    });

    let error = from_document(DOCUMENT, variables).unwrap_err();

    assert!(matches!(error, ConfigError::EnvironmentTypeMismatch(_)));
    assert!(error.message().contains("SERVER_PORT"));
    assert!(!error.message().contains("true"));
}

#[test]
fn preserves_deserialize_errors_without_environment_placeholders() {
    let document = r#"
[auth]
signing_key = 'secret'
buffer_time = 'not-a-number'
expires_time = 120
"#;
    let error = from_document(document, variables(&[])).unwrap_err();

    assert!(matches!(error, ConfigError::DeserializeFailed(_)));
}

#[test]
fn sections_that_are_not_interpreted_are_carried_as_resolved_tables() {
    let config = from_document(
        "[email]\npassword = \"${MAIL}\"\nport = ${PORT}\n",
        variables(&[("MAIL", "pa$$"), ("PORT", "25")]),
    )
    .unwrap();
    let email = config.email.unwrap();
    assert_eq!(
        email.entries,
        vec![
            ("password".to_string(), ConfigValue::Text("pa$$".to_string())),
            ("port".to_string(), ConfigValue::Integer(25)),
        ]
    );
    assert!(config.auth.is_none());
    assert!(config.queue.is_none());
}

#[test]
fn documents_that_are_not_toml_are_deserialize_errors() {
    let error = from_document("[auth\n", variables(&[])).unwrap_err();
    assert!(matches!(error, ConfigError::DeserializeFailed(_)));
    assert!(error.message().starts_with("deserialize failed: TOML parse error"));
}

#[test]
fn variables_that_are_not_unicode_are_refused() {
    let error = from_document(
        "[auth]\nsigning_key = '${KEY}'\n",
        vec![Variable {
            name: Some("KEY".to_string()),
            value: None,
        }],
    )
    .unwrap_err();
    assert_eq!(
        error.message(),
        "environment variable `KEY` is not valid UTF-8"
    );
}

#[test]
fn a_type_mismatch_names_every_variable_once_and_in_order() {
    let error = from_document(
        "[auth]\nsigning_key = '${ZED}'\nbuffer_time = '${ALPHA}'\nexpires_time = ${ZED}\n",
        variables(&[("ZED", "1"), ("ALPHA", "x")]),
    )
    .unwrap_err();
    assert_eq!(
        error.message(),
        "environment value(s) for `ALPHA`, `ZED` do not match the configuration field types"
    );
}

#[test]
fn messages_of_the_other_errors() {
    assert_eq!(
        ConfigError::NotFound.message(),
        "configuration file not found"
    );
    assert_eq!(
        ConfigError::Invalid.message(),
        "configuration file is invalid"
    );
    assert_eq!(
        ConfigError::EnvironmentNotFound("A".to_string()).message(),
        "environment variable `A` referenced by the configuration is not set"
    );
    assert_eq!(
        ConfigError::EnvironmentValueInvalid("A".to_string()).message(),
        "environment variable `A` must contain a valid TOML value"
    );
    let cause = some_toml_error();
    let shown = format!("deserialize failed: {cause}");
    assert_eq!(ConfigError::DeserializeFailed(cause).message(), shown);
}

#[test]
fn errors_of_resolving_become_configuration_errors() {
    assert!(matches!(
        config_error(ResolveError::NotFound("A".to_string())),
        ConfigError::EnvironmentNotFound(name) if name == "A"
    ));
    assert!(matches!(
        config_error(ResolveError::NotUnicode("B".to_string())),
        ConfigError::EnvironmentNotUnicode(name) if name == "B"
    ));
    assert!(matches!(
        config_error(ResolveError::InvalidValue("C".to_string())),
        ConfigError::EnvironmentValueInvalid(name) if name == "C"
    ));
    let cause = some_toml_error();
    assert!(matches!(
        config_error(ResolveError::Document(cause.clone())),
        ConfigError::DeserializeFailed(error) if error == cause
    ));
}

#[test]
fn type_errors_are_blamed_on_the_variables_that_were_put_in() {
    let cause = some_toml_error();
    assert!(matches!(
        GlobalConfig::check_types(Err(cause.clone()), &vec![]),
        Err(ConfigError::DeserializeFailed(error)) if error == cause
    ));
    assert!(matches!(
        GlobalConfig::check_types(Err(cause), &vec!["A".to_string(), "B".to_string()]),
        Err(ConfigError::EnvironmentTypeMismatch(names)) if names == "A`, `B"
    ));
    let config = deserialize(ConfigTable { entries: vec![] }).unwrap();
    let same = deserialize(ConfigTable { entries: vec![] }).unwrap();
    assert_eq!(
        GlobalConfig::check_types(Ok(config), &vec!["A".to_string()]).unwrap(),
        same
    );
}

#[test]
fn the_search_starts_in_the_working_directory_and_ends_in_the_system() {
    assert_eq!(
        GlobalConfig::directory(0, None),
        Some("./config/".to_string())
    );
    assert_eq!(
        GlobalConfig::directory(1, Some("/home/me")),
        Some("/home/me/.config/ret2shell/".to_string())
    );
    assert_eq!(GlobalConfig::directory(1, None), None);
    assert_eq!(
        GlobalConfig::directory(2, Some("/home/me")),
        Some("/etc/ret2shell/".to_string())
    );
    assert_eq!(GlobalConfig::file_name(), "config.toml");
}

fn run(reads: [Option<&str>; 3]) -> Result<String, ConfigError> {
    let mut step = GlobalConfig::load_start();
    loop {
        match step {
            LoadStep::Read(index) => {
                step = GlobalConfig::load_step(index, reads[index].map(|text| text.to_string()));
            }
            LoadStep::Found(document) => return Ok(document),
            LoadStep::Failed(error) => return Err(error),
        }
    }
}

#[test]
fn the_first_file_that_is_found_is_used() {
    assert_eq!(run([Some("a"), Some("b"), Some("c")]).unwrap(), "a");
    assert_eq!(run([None, Some("b"), Some("c")]).unwrap(), "b");
    assert_eq!(run([None, None, Some("c")]).unwrap(), "c");
    assert!(matches!(
        run([None, None, None]),
        Err(ConfigError::NotFound)
    ));
    assert!(matches!(
        run([Some(""), Some("b"), Some("c")]),
        Err(ConfigError::NotFound)
    ));
}

const INLINE: &str = "[auth]\nsigning_key = 'inline'\nbuffer_time = 60\nexpires_time = 120\n";

#[test]
fn environment_values_override_the_document() {
    let config = from_document(
        INLINE,
        variables(&[("R2S_CONFIG__AUTH__SIGNING_KEY", "from-env")]),
    )
    .unwrap();
    let auth = config.auth.unwrap();
    assert_eq!(auth.signing_key, "from-env");
    assert_eq!(auth.buffer_time, 60);
    assert_eq!(auth.expires_time, 120);
}

#[test]
fn overriding_values_take_the_place_of_placeholders_and_left_out_fields() {
    let config = from_document(
        "[auth]\nsigning_key = '${KEY}'\nbuffer_time = ${TIME}\nexpires_time = 120\n",
        variables(&[
            ("KEY", "key"),
            ("TIME", "1"),
            ("R2S_CONFIG__AUTH__SIGNING_KEY", "${TIME}"),
            ("R2S_CONFIG__AUTH__BUFFER_TIME", "2"),
            ("R2S_CONFIG__CLUSTER__REGISTRY__USERNAME", "7"),
            ("R2S_CONFIG__CLUSTER__REGISTRY__PASSWORD", "true"),
        ]),
    )
    .unwrap();
    let auth = config.auth.unwrap();
    assert_eq!(auth.signing_key, "${TIME}");
    assert_eq!(auth.buffer_time, 2);
    assert_eq!(
        config.cluster.unwrap().entries,
        vec![(
            "registry".to_string(),
            ConfigValue::Table(ConfigTable {
                entries: vec![
                    ("password".to_string(), ConfigValue::Text("true".to_string())),
                    ("username".to_string(), ConfigValue::Text("7".to_string())),
                ]
            })
        )]
    );
}

#[test]
fn overriding_values_that_do_not_fit_are_named_and_not_told() {
    let error = from_document(
        INLINE,
        variables(&[("R2S_CONFIG__AUTH__BUFFER_TIME", "s3cret")]),
    )
    .unwrap_err();
    assert_eq!(
        error.message(),
        "environment value(s) for `R2S_CONFIG__AUTH__BUFFER_TIME` do not match the \
         configuration field types"
    );
    let other = from_document(
        INLINE,
        variables(&[("R2S_CONFIG__AUTH__BUFFER_TIME", "[1]"), ("UNUSED", "x")]),
    )
    .unwrap_err();
    assert_eq!(error.message(), other.message());
    let error = from_document(
        INLINE,
        vec![Variable {
            name: Some("R2S_CONFIG__AUTH__SIGNING_KEY".to_string()),
            value: None,
        }],
    )
    .unwrap_err();
    assert_eq!(
        error.message(),
        "environment variable `R2S_CONFIG__AUTH__SIGNING_KEY` is not valid UTF-8"
    );
}

#[test]
fn any_left_out_field_of_a_known_section_can_be_set() {
    let config = from_document(
        "[server]\napi_base_path = '/api'\ncors_origins = '*'\nhost = '127.0.0.1'\n",
        variables(&[
            ("R2S_CONFIG__SERVER__PORT", "9090"),
            ("R2S_CONFIG__SERVER__EXTERNAL_HTTPS", "true"),
            ("R2S_CONFIG__SERVER__EXTERNAL_DOMAIN", "1"),
            ("R2S_CONFIG__AUTH__SIGNING_KEY", "12345"),
            ("R2S_CONFIG__AUTH__BUFFER_TIME", "60"),
            ("R2S_CONFIG__AUTH__EXPIRES_TIME", "120"),
            ("R2S_CONFIG__CAPTCHA__ENABLED", "false"),
            ("R2S_CONFIG__CAPTCHA__DIFFICULTY", "4"),
            ("R2S_CONFIG__CAPTCHA__VALIDATOR", "h_captcha"),
        ]),
    )
    .unwrap();
    let server = config.server.unwrap();
    assert_eq!(server.port, 9090);
    assert!(server.external_https);
    assert_eq!(server.external_domain, "1");
    let auth = config.auth.unwrap();
    assert_eq!(auth.signing_key, "12345");
    assert_eq!((auth.buffer_time, auth.expires_time), (60, 120));
    let captcha = config.captcha.unwrap();
    assert!(!captcha.enabled);
    assert_eq!(captcha.difficulty, Some(4));
    assert_eq!(captcha.validator, ValidatorType::HCaptcha);
}
