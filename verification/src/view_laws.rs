//! What the views of the library's types show: all of a value, as it is.
use vstd::prelude::*;

use crate::config::{ConfigError, ConfigErrorView, LoadStep, LoadStepView};
use crate::document::{self, ConfigTable, ConfigValue, ValueView};
use crate::env::{self, Replacement, ResolveError, ResolveErrorView};
use crate::mask::{self, Placeholder};
use crate::{overrides, text};

verus! {

/// A value that is no array and no table shows what it holds.
pub proof fn law_single_values_show_what_they_hold(
    text: String,
    number: i64,
    bits: u64,
    truth: bool,
    moment: toml::value::Datetime,
)
    ensures
        ConfigValue::Text(text)@ == ValueView::Text(text@),
        ConfigValue::Integer(number)@ == ValueView::Integer(number),
        ConfigValue::Float(bits)@ == ValueView::Float(bits),
        ConfigValue::Boolean(truth)@ == ValueView::Boolean(truth),
        ConfigValue::Datetime(moment)@ == ValueView::Datetime(moment),
{
}

/// An array shows what its items hold, in order.
pub proof fn law_arrays_show_their_items(items: Vec<ConfigValue>, index: int)
    ensures
        ConfigValue::Array(items)@ matches ValueView::Array(views) && views.len() == items@.len()
            && (0 <= index < views.len() ==> views[index] == items@[index]@),
{
}

/// A table shows its keys with what their values hold, in order.
pub proof fn law_tables_show_their_entries(table: ConfigTable, index: int)
    ensures
        ConfigValue::Table(table)@ == ValueView::Table(table@),
        table@.len() == table.entries@.len(),
        0 <= index < table@.len() ==> table@[index].0 == table.entries@[index].0@
            && table@[index].1 == table.entries@[index].1@,
{
}

/// The items of a list of values, and the markers and names of placeholders, are
/// shown one for one.
pub proof fn law_lists_show_their_members(
    items: Seq<ConfigValue>,
    placeholders: Seq<Placeholder>,
    index: int,
)
    ensures
        env::views_of(items).len() == items.len(),
        0 <= index < items.len() ==> env::views_of(items)[index] == items[index]@,
        mask::placeholder_views(placeholders).len() == placeholders.len(),
        0 <= index < placeholders.len() ==> mask::placeholder_views(placeholders)[index].0
            == placeholders[index].marker@ && mask::placeholder_views(placeholders)[index].1
            == placeholders[index].name@,
{
}

/// An error of resolving shows its kind, and its cause or the whole name.
pub proof fn law_resolve_errors_show_their_cause(name: String, cause: toml::de::Error)
    ensures
        ResolveError::Document(cause)@ == ResolveErrorView::Document(cause),
        ResolveError::NotFound(name)@ == ResolveErrorView::NotFound(name@),
        ResolveError::NotUnicode(name)@ == ResolveErrorView::NotUnicode(name@),
        ResolveError::InvalidValue(name)@ == ResolveErrorView::InvalidValue(name@),
{
}

/// A configuration error shows its kind, and its cause or the whole names.
pub proof fn law_config_errors_show_their_cause(names: String, cause: toml::de::Error)
    ensures
        ConfigError::NotFound@ == ConfigErrorView::NotFound,
        ConfigError::Invalid@ == ConfigErrorView::Invalid,
        ConfigError::DeserializeFailed(cause)@ == ConfigErrorView::DeserializeFailed(cause),
        ConfigError::EnvironmentNotFound(names)@ == ConfigErrorView::EnvironmentNotFound(names@),
        ConfigError::EnvironmentNotUnicode(names)@ == ConfigErrorView::EnvironmentNotUnicode(
            names@,
        ),
        ConfigError::EnvironmentValueInvalid(names)@ == ConfigErrorView::EnvironmentValueInvalid(
            names@,
        ),
        ConfigError::EnvironmentTypeMismatch(names)@ == ConfigErrorView::EnvironmentTypeMismatch(
            names@,
        ),
{
}

/// A step in looking the file up shows its kind and all that comes with it.
pub proof fn law_load_steps_show_what_comes_with_them(
    index: usize,
    document: String,
    error: ConfigError,
)
    ensures
        LoadStep::Read(index)@ == LoadStepView::Read(index as int),
        LoadStep::Found(document)@ == LoadStepView::Found(document@),
        LoadStep::Failed(error)@ == LoadStepView::Failed(error@),
{
}

/// Of replacements for one marker the last counts, with its name and its value as
/// they are; and a marker without one stands for nothing.
pub proof fn law_replacements_stand_for_their_values(
    replacements: Seq<Replacement>,
    index: int,
    marker: Seq<char>,
)
    ensures
        0 <= index < replacements.len() && replacements[index].marker@ == marker && (forall|i: int|
            index < i < replacements.len() ==> (#[trigger] replacements[i]).marker@ != marker)
            ==> env::stands_of(replacements).contains_key(marker) && env::stands_of(
            replacements,
        )[marker].0 == replacements[index].name@ && env::stands_of(replacements)[marker].1
            == replacements[index].value@,
        (forall|i: int|
            0 <= i < replacements.len() ==> (#[trigger] replacements[i]).marker@ != marker)
            ==> !env::stands_of(replacements).contains_key(marker),
    decreases replacements.len(),
{
    if replacements.len() > 0 {
        let earlier = replacements.drop_last();
        let last = replacements.len() - 1;
        assert(replacements[last] == replacements.last());
        assert(forall|i: int| 0 <= i < last ==> earlier[i] == replacements[i]);
        law_replacements_stand_for_their_values(earlier, index, marker);
    }
}

/// A table is well-formed where its keys stand in order and its values are
/// well-formed, an array where its items are, and every other value is.
pub proof fn law_which_values_are_well_formed(
    entries: Seq<(Seq<char>, ValueView)>,
    items: Seq<ValueView>,
    value: ValueView,
)
    ensures
        ValueView::Table(entries).well_formed() <==> (forall|i: int, j: int|
            #![trigger entries[i], entries[j]]
            0 <= i < j < entries.len() ==> text::precedes(entries[i].0, entries[j].0)) && (forall|
            i: int,
        |
            0 <= i < entries.len() ==> (#[trigger] entries[i]).1.well_formed()),
        ValueView::Array(items).well_formed() <==> forall|i: int|
            0 <= i < items.len() ==> (#[trigger] items[i]).well_formed(),
        !(value is Table) && !(value is Array) ==> value.well_formed(),
{
    let array = ValueView::Array(items);
    if array.well_formed() {
        assert forall|i: int| 0 <= i < items.len() implies (#[trigger] items[i]).well_formed() by {
            assert(array->Array_0[i] == items[i]);
        }
    }
    if forall|i: int| 0 <= i < items.len() ==> (#[trigger] items[i]).well_formed() {
        assert(array.well_formed());
    }
}

/// A value draws on a text where each character of its texts and keys is one of
/// that text.
pub proof fn law_which_values_draw_on_a_text(
    source: Seq<char>,
    text: Seq<char>,
    entries: Seq<(Seq<char>, ValueView)>,
    items: Seq<ValueView>,
)
    ensures
        document::draws_on(ValueView::Text(text), source) <==> forall|i: int|
            0 <= i < text.len() ==> source.contains(#[trigger] text[i]),
        document::draws_on(ValueView::Array(items), source) <==> forall|i: int|
            0 <= i < items.len() ==> document::draws_on(#[trigger] items[i], source),
        document::draws_on(ValueView::Table(entries), source) <==> forall|i: int|
            0 <= i < entries.len() ==> document::draws_on(
                ValueView::Text((#[trigger] entries[i]).0),
                source,
            ) && document::draws_on(entries[i].1, source),
{
    let array = ValueView::Array(items);
    let table = ValueView::Table(entries);
    if document::draws_on(array, source) {
        assert forall|i: int| 0 <= i < items.len() implies document::draws_on(
            #[trigger] items[i],
            source,
        ) by {
            assert(array->Array_0[i] == items[i]);
        }
    }
    if forall|i: int| 0 <= i < items.len() ==> document::draws_on(#[trigger] items[i], source) {
        assert(document::draws_on(array, source));
    }
    if document::draws_on(table, source) {
        assert forall|i: int| 0 <= i < entries.len() implies document::draws_on(
            ValueView::Text((#[trigger] entries[i]).0),
            source,
        ) && document::draws_on(entries[i].1, source) by {
            assert(table->Table_0[i] == entries[i]);
            assert(document::is_made_of(entries[i].0, source));
        }
    }
    if forall|i: int|
        0 <= i < entries.len() ==> document::draws_on(
            ValueView::Text((#[trigger] entries[i]).0),
            source,
        ) && document::draws_on(entries[i].1, source) {
        assert forall|i: int| 0 <= i < entries.len() implies document::is_made_of(
            (#[trigger] entries[i]).0,
            source,
        ) && document::draws_on(entries[i].1, source) by {
            assert(document::draws_on(ValueView::Text(entries[i].0), source));
        }
        assert(document::draws_on(table, source));
    }
}

/// A string that there may be shows all its characters, and a value that there
/// may be what it holds.
pub proof fn law_options_show_what_is_there(text: String, value: ConfigValue)
    ensures
        env::text_of(Some(text)) == Some(text@),
        env::text_of(None) is None,
        overrides::view_of(Some(value)) == Some(value@),
        overrides::view_of(None) is None,
{
}

} // verus!
