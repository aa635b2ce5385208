//! What the configuration promises of its errors and of where it is looked up.
use vstd::prelude::*;

use crate::config::{self, ConfigErrorView, LoadStepView};
use crate::env::ResolveErrorView;

verus! {

/// The message of an error about variables is made of fixed words around their
/// names, and no other message describes it.
pub proof fn law_messages_about_variables(message: Seq<char>, names: Seq<char>)
    ensures
        config::describes(message, ConfigErrorView::EnvironmentNotFound(names)) <==> message
            == "environment variable `"@ + names
            + "` referenced by the configuration is not set"@,
        config::describes(message, ConfigErrorView::EnvironmentNotUnicode(names)) <==> message
            == "environment variable `"@ + names + "` is not valid UTF-8"@,
        config::describes(message, ConfigErrorView::EnvironmentValueInvalid(names)) <==> message
            == "environment variable `"@ + names + "` must contain a valid TOML value"@,
        config::describes(message, ConfigErrorView::EnvironmentTypeMismatch(names)) <==> message
            == "environment value(s) for `"@ + names
            + "` do not match the configuration field types"@,
{
}

/// The messages of the other errors are fixed, and that of an error of the `toml`
/// crate ends in the words of that crate.
pub proof fn law_other_messages(message: Seq<char>, cause: toml::de::Error)
    ensures
        config::describes(message, ConfigErrorView::NotFound) <==> message
            == "configuration file not found"@,
        config::describes(message, ConfigErrorView::Invalid) <==> message
            == "configuration file is invalid"@,
        config::describes(message, ConfigErrorView::DeserializeFailed(cause)) <==> exists|
            shown: String,
        |
            #[trigger] vstd::string::to_string_from_display_ensures::<toml::de::Error>(
                &cause,
                shown,
            ) && message == "deserialize failed: "@ + shown@,
{
}

/// An error of resolving becomes the configuration error about the same cause or
/// the same name.
pub proof fn law_errors_keep_their_cause(cause: toml::de::Error, name: Seq<char>)
    ensures
        config::config_error_of(ResolveErrorView::Document(cause))
            == ConfigErrorView::DeserializeFailed(cause),
        config::config_error_of(ResolveErrorView::NotFound(name))
            == ConfigErrorView::EnvironmentNotFound(name),
        config::config_error_of(ResolveErrorView::NotUnicode(name))
            == ConfigErrorView::EnvironmentNotUnicode(name),
        config::config_error_of(ResolveErrorView::InvalidValue(name))
            == ConfigErrorView::EnvironmentValueInvalid(name),
{
}

/// Values that do not fit are the reader's error where no variable was put in;
/// else the error names every variable, in order, with "`, `" between them.
pub proof fn law_mismatches_name_every_variable(
    error: toml::de::Error,
    names: Seq<Seq<char>>,
    last: Seq<char>,
)
    ensures
        config::mismatch(error, Seq::empty()) == ConfigErrorView::DeserializeFailed(error),
        config::mismatch(error, seq![last]) == ConfigErrorView::EnvironmentTypeMismatch(last),
        names.len() > 0 ==> (config::mismatch(
            error,
            names,
        ) matches ConfigErrorView::EnvironmentTypeMismatch(listed) && config::mismatch(
            error,
            names.push(last),
        ) == ConfigErrorView::EnvironmentTypeMismatch(listed + "`, `"@ + last)),
{
    crate::text_laws::law_joining(names, last, "`, `"@);
}

/// A directory under `~` is one under the home directory, and there is none
/// without a home directory; any other directory stays as it is.
pub proof fn law_home_takes_the_place_of_the_tilde(rest: Seq<char>, home: Seq<char>)
    ensures
        config::expanded(seq!['~'] + rest, Some(home)) == Some(home + rest),
        config::expanded(seq!['~'] + rest, None) is None,
        rest.len() == 0 || rest[0] != '~' ==> config::expanded(rest, Some(home)) == Some(rest)
            && config::expanded(rest, None) == Some(rest),
{
    assert((seq!['~'] + rest).skip(1) =~= rest);
}

/// The file is looked up in the working directory, then in the user's, then in
/// that of the system.
pub proof fn law_search_path()
    ensures
        config::search_path().len() == 3,
        config::search_path()[0] == "./config/"@,
        config::search_path()[1] == "~/.config/ret2shell/"@,
        config::search_path()[2] == "/etc/ret2shell/"@,
{
}

/// A file that could be read is the document, unless it is empty; one that could
/// not leads to the next directory, and after the last one nothing is found.
pub proof fn law_steps_of_looking_up(index: int, document: Seq<char>)
    ensures
        document.len() > 0 ==> config::step_after(index, Some(document)) == LoadStepView::Found(
            document,
        ),
        config::step_after(index, Some(Seq::empty())) == LoadStepView::Failed(
            ConfigErrorView::NotFound,
        ),
        index < 2 ==> config::step_after(index, None) == LoadStepView::Read(index + 1),
        index >= 2 ==> config::step_after(index, None) == LoadStepView::Failed(
            ConfigErrorView::NotFound,
        ),
{
}

} // verus!
