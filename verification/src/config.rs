//! The whole configuration: where its document is looked up, how it is put
//! together from the document, and what can go wrong.
use vstd::prelude::*;

use crate::auth;
use crate::captcha;
use crate::document::{ConfigTable, ValueView};
use crate::env::{self, Holdings, ResolveError, ResolveErrorView, Variable};
use crate::env_laws;
use crate::names;
use crate::overrides::{self, configure};
use crate::server;
use crate::text::{self, join};

verus! {

/// Why there is no configuration.
#[derive(Debug)]
pub enum ConfigError {
    NotFound,
    Invalid,
    DeserializeFailed(toml::de::Error),
    EnvironmentNotFound(String),
    EnvironmentNotUnicode(String),
    EnvironmentValueInvalid(String),
    EnvironmentTypeMismatch(String),
}

/// What a configuration error says.
pub enum ConfigErrorView {
    NotFound,
    Invalid,
    DeserializeFailed(toml::de::Error),
    EnvironmentNotFound(Seq<char>),
    EnvironmentNotUnicode(Seq<char>),
    EnvironmentValueInvalid(Seq<char>),
    EnvironmentTypeMismatch(Seq<char>),
}

impl ConfigError {
    /// What the error says.
    pub open spec fn view(&self) -> ConfigErrorView {
        match self {
            ConfigError::NotFound => ConfigErrorView::NotFound,
            ConfigError::Invalid => ConfigErrorView::Invalid,
            ConfigError::DeserializeFailed(error) => ConfigErrorView::DeserializeFailed(*error),
            ConfigError::EnvironmentNotFound(name) => ConfigErrorView::EnvironmentNotFound(name@),
            ConfigError::EnvironmentNotUnicode(name) => ConfigErrorView::EnvironmentNotUnicode(
                name@,
            ),
            ConfigError::EnvironmentValueInvalid(name) => ConfigErrorView::EnvironmentValueInvalid(
                name@,
            ),
            ConfigError::EnvironmentTypeMismatch(
                names,
            ) => ConfigErrorView::EnvironmentTypeMismatch(names@),
        }
    }

    /// The error as a message to the user. It tells the names of variables, and
    /// nothing of what they hold.
    pub fn message(&self) -> (message: String)
        ensures
            describes(message@, self@),
    {
        let message = match self {
            ConfigError::NotFound => "configuration file not found".to_owned(),
            ConfigError::Invalid => "configuration file is invalid".to_owned(),
            ConfigError::DeserializeFailed(error) => {
                let shown = error.to_string();
                let message = enclosed("deserialize failed: ", shown.as_str(), "");
                proof {
                    reveal_strlit("");
                    assert(message@ =~= "deserialize failed: "@ + shown@);
                    assert(tells_cause(message@, *error));
                }
                message
            },
            ConfigError::EnvironmentNotFound(name) => enclosed(
                "environment variable `",
                name.as_str(),
                "` referenced by the configuration is not set",
            ),
            ConfigError::EnvironmentNotUnicode(name) => enclosed(
                "environment variable `",
                name.as_str(),
                "` is not valid UTF-8",
            ),
            ConfigError::EnvironmentValueInvalid(name) => enclosed(
                "environment variable `",
                name.as_str(),
                "` must contain a valid TOML value",
            ),
            ConfigError::EnvironmentTypeMismatch(names) => enclosed(
                "environment value(s) for `",
                names.as_str(),
                "` do not match the configuration field types",
            ),
        };
        assert(describes(message@, self@));
        message
    }
}

/// A text with one before it and one after it.
fn enclosed(before: &str, text: &str, after: &str) -> (whole: String)
    ensures
        whole@ == before@ + text@ + after@,
{
    let mut whole = before.to_owned();
    whole.append(text);
    whole.append(after);
    whole
}

/// The message tells an error of the `toml` crate.
pub open spec fn tells_cause(message: Seq<char>, cause: toml::de::Error) -> bool {
    exists|shown: String|
        #[trigger] vstd::string::to_string_from_display_ensures::<toml::de::Error>(&cause, shown)
            && message == "deserialize failed: "@ + shown@
}

/// The message describes the error. That of an error of the `toml` crate is in
/// the words of that crate.
pub open spec fn describes(message: Seq<char>, error: ConfigErrorView) -> bool {
    match error {
        ConfigErrorView::NotFound => message == "configuration file not found"@,
        ConfigErrorView::Invalid => message == "configuration file is invalid"@,
        ConfigErrorView::DeserializeFailed(cause) => tells_cause(message, cause),
        ConfigErrorView::EnvironmentNotFound(name) => message == "environment variable `"@ + name
            + "` referenced by the configuration is not set"@,
        ConfigErrorView::EnvironmentNotUnicode(name) => message == "environment variable `"@ + name
            + "` is not valid UTF-8"@,
        ConfigErrorView::EnvironmentValueInvalid(name) => message == "environment variable `"@
            + name + "` must contain a valid TOML value"@,
        ConfigErrorView::EnvironmentTypeMismatch(names) => message
            == "environment value(s) for `"@ + names
            + "` do not match the configuration field types"@,
    }
}

/// The variable, or the listed variables, that an error is about.
pub open spec fn subject(error: ConfigErrorView) -> Option<Seq<char>> {
    match error {
        ConfigErrorView::EnvironmentNotFound(name) => Some(name),
        ConfigErrorView::EnvironmentNotUnicode(name) => Some(name),
        ConfigErrorView::EnvironmentValueInvalid(name) => Some(name),
        ConfigErrorView::EnvironmentTypeMismatch(names) => Some(names),
        _ => None,
    }
}

/// The message of an error about variables tells their names, and it is the only
/// message of that error.
pub proof fn law_messages_tell_the_variables(
    message: Seq<char>,
    other: Seq<char>,
    error: ConfigErrorView,
)
    requires
        subject(error) is Some,
        describes(message, error),
        describes(other, error),
    ensures
        text::occurs_in(message, subject(error)->0),
        message == other,
{
    let name = subject(error)->0;
    let before = match error {
        ConfigErrorView::EnvironmentTypeMismatch(_) => "environment value(s) for `"@,
        _ => "environment variable `"@,
    };
    let position = before.len() as int;
    assert(name =~= message.skip(position).take(name.len() as int));
    assert(text::occurs_at(message, name, position));
}

/// What an error of resolving means for the configuration.
pub open spec fn config_error_of(error: ResolveErrorView) -> ConfigErrorView {
    match error {
        ResolveErrorView::Document(error) => ConfigErrorView::DeserializeFailed(error),
        ResolveErrorView::NotFound(name) => ConfigErrorView::EnvironmentNotFound(name),
        ResolveErrorView::NotUnicode(name) => ConfigErrorView::EnvironmentNotUnicode(name),
        ResolveErrorView::InvalidValue(name) => ConfigErrorView::EnvironmentValueInvalid(name),
    }
}

/// The configuration error for an error of resolving.
pub fn config_error(error: ResolveError) -> (result: ConfigError)
    ensures
        result@ == config_error_of(error@),
{
    match error {
        ResolveError::Document(error) => ConfigError::DeserializeFailed(error),
        ResolveError::NotFound(name) => ConfigError::EnvironmentNotFound(name),
        ResolveError::NotUnicode(name) => ConfigError::EnvironmentNotUnicode(name),
        ResolveError::InvalidValue(name) => ConfigError::EnvironmentValueInvalid(name),
    }
}

/// The configuration of the whole application. Sections that nothing here
/// interprets are carried as tables.
#[derive(Clone, Debug, PartialEq)]
pub struct GlobalConfig {
    pub auditor: Option<ConfigTable>,
    pub auth: Option<auth::Config>,
    pub bucket: Option<ConfigTable>,
    pub cache: Option<ConfigTable>,
    pub captcha: Option<captcha::Config>,
    pub cluster: Option<ConfigTable>,
    pub database: Option<ConfigTable>,
    pub email: Option<ConfigTable>,
    pub logging: Option<ConfigTable>,
    pub media: Option<ConfigTable>,
    pub queue: Option<ConfigTable>,
    pub server: Option<server::Config>,
}

/// The error when the values of a document do not fit the configuration: the
/// reader's own where no variable was put in, else one that names the variables.
pub open spec fn mismatch(error: toml::de::Error, referenced: Seq<Seq<char>>) -> ConfigErrorView {
    if referenced.len() == 0 {
        ConfigErrorView::DeserializeFailed(error)
    } else {
        ConfigErrorView::EnvironmentTypeMismatch(text::joined(referenced, "`, `"@))
    }
}

/// An error about types tells the names of the variables that were put in and
/// nothing else: neither what they hold nor what the reader said.
pub proof fn law_mismatch_tells_names_only(
    first: toml::de::Error,
    second: toml::de::Error,
    referenced: Seq<Seq<char>>,
)
    requires
        referenced.len() > 0,
    ensures
        mismatch(first, referenced) == mismatch(second, referenced),
{
}

/// What the variables hold does not show in the error when the values of a
/// document do not fit. Which variables are named depends on the document alone,
/// and on which overriding variables are set. Where none are, what is read is
/// what the document says, whatever the variables hold; the error is then in
/// the words of the reader.
pub proof fn law_mismatch_depends_on_the_document(
    document: Seq<char>,
    first: Holdings,
    second: Holdings,
    ours: Seq<Seq<char>>,
    theirs: Seq<Seq<char>>,
    error: toml::de::Error,
    other: toml::de::Error,
)
    requires
        overrides::override_names(first) == overrides::override_names(second),
        overrides::configured(document, first) is Ok,
        overrides::configured(document, second) is Ok,
        names::lists(ours, overrides::configured(document, first)->Ok_0.1),
        names::lists(theirs, overrides::configured(document, second)->Ok_0.1),
    ensures
        ours == theirs,
        ours.len() > 0 ==> mismatch(error, ours) == mismatch(other, theirs),
        ours.len() == 0 ==> overrides::configured(document, first) == overrides::configured(
            document,
            second,
        ),
{
    env_laws::law_names_depend_on_the_document(document, first, second);
    names::law_listing_is_unique(ours, theirs, overrides::configured(document, first)->Ok_0.1);
    if ours.len() == 0 {
        names::lemma_no_members(ours);
        let referenced = env::resolution(document, first)->Ok_0.1;
        let overriding = overrides::override_names(first);
        assert(referenced.union(overriding) == Set::<Seq<char>>::empty());
        env_laws::lemma_empty_union(referenced, overriding);
        env_laws::law_nothing_put_in_changes_nothing(document, first);
        env_laws::law_nothing_put_in_changes_nothing(document, second);
        let list = overrides::listing(overriding);
        assert(names::lists(ours, overriding));
        names::lemma_no_members(list);
    }
}

impl GlobalConfig {
    /// The configuration that was read from a resolved document, or why there is
    /// none; `referenced` are the variables that were put into the document.
    pub fn check_types(
        read: Result<GlobalConfig, toml::de::Error>,
        referenced: &Vec<String>,
    ) -> (result: Result<GlobalConfig, ConfigError>)
        ensures
            match read {
                Ok(config) => result == Ok::<GlobalConfig, ConfigError>(config),
                Err(error) => result matches Err(mapped) && mapped@ == mismatch(
                    error,
                    text::texts(referenced@),
                ),
            },
    {
        match read {
            Ok(config) => Ok(config),
            Err(error) => if referenced.len() == 0 {
                Err(ConfigError::DeserializeFailed(error))
            } else {
                Err(ConfigError::EnvironmentTypeMismatch(join(referenced, "`, `")))
            },
        }
    }

    /// The configuration of a document with given variables: its placeholders are
    /// replaced, overriding variables are put in, and `deserialize` reads a
    /// configuration from the table that this gives.
    pub fn from_document<F>(document: &str, variables: Vec<Variable>, deserialize: F) -> (result:
        Result<GlobalConfig, ConfigError>) where
        F: FnOnce(ConfigTable) -> Result<GlobalConfig, toml::de::Error>,

        requires
            forall|table: ConfigTable| deserialize.requires((table,)),
        ensures
            match overrides::configured(document@, env::holdings_of(variables@)) {
                Err(error) => result matches Err(mapped) && mapped@ == config_error_of(error),
                Ok((root, referenced)) => exists|
                    table: ConfigTable,
                    read: Result<GlobalConfig, toml::de::Error>,
                    names: Seq<Seq<char>>,
                |
                    {
                        &&& root == ValueView::Table(table@)
                        &&& #[trigger] deserialize.ensures((table,), read)
                        &&& #[trigger] names::lists(names, referenced)
                        &&& match read {
                            Ok(config) => result == Ok::<GlobalConfig, ConfigError>(config),
                            Err(error) => result matches Err(mapped) && mapped@ == mismatch(
                                error,
                                names,
                            ),
                        }
                    },
            },
    {
        match configure(document, variables) {
            Err(error) => Err(config_error(error)),
            Ok((table, referenced)) => {
                let read = deserialize(table);
                GlobalConfig::check_types(read, &referenced)
            },
        }
    }
}

/// The directories in which the configuration file is looked up, in order.
pub open spec fn search_path() -> Seq<Seq<char>> {
    seq!["./config/"@, "~/.config/ret2shell/"@, "/etc/ret2shell/"@]
}

/// A directory with its leading `~` replaced by the home directory. Without a
/// home directory there is no such directory.
pub open spec fn expanded(directory: Seq<char>, home: Option<Seq<char>>) -> Option<Seq<char>> {
    if directory.len() > 0 && directory[0] == '~' {
        match home {
            Some(home) => Some(home + directory.skip(1)),
            None => None,
        }
    } else {
        Some(directory)
    }
}

/// A step in looking the configuration file up.
#[derive(Debug)]
pub enum LoadStep {
    /// Read the file in the directory with this number.
    Read(usize),
    /// The document is found.
    Found(String),
    /// There is none.
    Failed(ConfigError),
}

/// What a step says.
pub enum LoadStepView {
    Read(int),
    Found(Seq<char>),
    Failed(ConfigErrorView),
}

impl LoadStep {
    /// What the step says.
    pub open spec fn view(&self) -> LoadStepView {
        match self {
            LoadStep::Read(index) => LoadStepView::Read(*index as int),
            LoadStep::Found(document) => LoadStepView::Found(document@),
            LoadStep::Failed(error) => LoadStepView::Failed(error@),
        }
    }
}

/// The step after trying to read the file in a directory. A file that could be
/// read is used, but for an empty one; else the next directory is tried.
pub open spec fn step_after(index: int, read: Option<Seq<char>>) -> LoadStepView {
    match read {
        Some(document) => if document.len() > 0 {
            LoadStepView::Found(document)
        } else {
            LoadStepView::Failed(ConfigErrorView::NotFound)
        },
        None => if index + 1 < search_path().len() {
            LoadStepView::Read(index + 1)
        } else {
            LoadStepView::Failed(ConfigErrorView::NotFound)
        },
    }
}

impl GlobalConfig {
    /// The name of the configuration file.
    pub fn file_name() -> (name: &'static str)
        ensures
            name@ == "config.toml"@,
    {
        "config.toml"
    }

    /// A directory of the search path, for a user with the given home directory.
    pub fn directory(index: usize, home: Option<&str>) -> (directory: Option<String>)
        ensures
            ({
                let home = match home {
                    Some(home) => Some(home@),
                    None => None,
                };
                env::text_of(directory) == if index < search_path().len() {
                    expanded(search_path()[index as int], home)
                } else {
                    None
                }
            }),
    {
        proof {
            reveal_strlit("./config/");
            reveal_strlit("~/.config/ret2shell/");
            reveal_strlit("/.config/ret2shell/");
            reveal_strlit("/etc/ret2shell/");
            assert("~/.config/ret2shell/"@.skip(1) =~= "/.config/ret2shell/"@);
        }
        if index == 0 {
            Some("./config/".to_owned())
        } else if index == 1 {
            match home {
                Some(home) => {
                    let mut directory = home.to_owned();
                    directory.append("/.config/ret2shell/");
                    Some(directory)
                },
                None => None,
            }
        } else if index == 2 {
            Some("/etc/ret2shell/".to_owned())
        } else {
            None
        }
    }

    /// The first step.
    pub fn load_start() -> (step: LoadStep)
        ensures
            step@ == LoadStepView::Read(0),
    {
        LoadStep::Read(0)
    }

    /// The step after trying to read the file in a directory; `None` where that
    /// failed.
    pub fn load_step(index: usize, read: Option<String>) -> (step: LoadStep)
        ensures
            step@ == step_after(index as int, env::text_of(read)),
    {
        match read {
            Some(document) => {
                if document.as_str().is_empty() {
                    LoadStep::Failed(ConfigError::NotFound)
                } else {
                    LoadStep::Found(document)
                }
            },
            None => {
                if index < 2 {
                    LoadStep::Read(index + 1)
                } else {
                    LoadStep::Failed(ConfigError::NotFound)
                }
            },
        }
    }
}

/// Where the steps lead from a directory on, if reading the files gives `reads`.
pub open spec fn loaded(index: int, reads: Seq<Option<Seq<char>>>) -> Result<
    Seq<char>,
    ConfigErrorView,
>
    decreases search_path().len() - index,
{
    if index < 0 || index >= search_path().len() {
        Err(ConfigErrorView::NotFound)
    } else {
        match step_after(index, reads[index]) {
            LoadStepView::Read(next) => if next == index + 1 {
                loaded(next, reads)
            } else {
                Err(ConfigErrorView::NotFound)
            },
            LoadStepView::Found(document) => Ok(document),
            LoadStepView::Failed(error) => Err(error),
        }
    }
}

/// The first file of the search path that can be read is the one that is used,
/// unless it is empty; then, or where none can be read, no file is found.
pub proof fn law_first_found_is_used(reads: Seq<Option<Seq<char>>>, first: int)
    requires
        reads.len() == search_path().len(),
        0 <= first <= reads.len(),
        forall|i: int| 0 <= i < first ==> (#[trigger] reads[i]) is None,
        first < reads.len() ==> reads[first] is Some,
    ensures
        loaded(0, reads) == if first < reads.len() && reads[first]->0.len() > 0 {
            Ok::<Seq<char>, ConfigErrorView>(reads[first]->0)
        } else {
            Err::<Seq<char>, ConfigErrorView>(ConfigErrorView::NotFound)
        },
{
    reveal_with_fuel(loaded, 4);
}

} // verus!
