//! Resolves environment variable placeholders in a TOML document.
use vstd::prelude::*;

use crate::document::{self, read_document, ConfigTable, ConfigValue, ValueView};
use crate::mask::{self, placeholder_name, Placeholder};
use crate::names::{self, NameSet};
use crate::reading::{self, read_masked, Reading};
use crate::reading_laws;
use crate::text::{self, same};

verus! {

/// Why a document could not be resolved.
#[derive(Debug)]
pub enum ResolveError {
    /// The document is not TOML.
    Document(toml::de::Error),
    /// A referenced variable is not set.
    NotFound(String),
    /// A referenced variable is not valid UTF-8.
    NotUnicode(String),
    /// A variable that stands for a value does not hold one.
    InvalidValue(String),
}

/// What an error of this module says.
pub enum ResolveErrorView {
    Document(toml::de::Error),
    NotFound(Seq<char>),
    NotUnicode(Seq<char>),
    InvalidValue(Seq<char>),
}

impl ResolveError {
    /// What the error says.
    pub open spec fn view(&self) -> ResolveErrorView {
        match self {
            ResolveError::Document(error) => ResolveErrorView::Document(*error),
            ResolveError::NotFound(name) => ResolveErrorView::NotFound(name@),
            ResolveError::NotUnicode(name) => ResolveErrorView::NotUnicode(name@),
            ResolveError::InvalidValue(name) => ResolveErrorView::InvalidValue(name@),
        }
    }
}

/// A variable of the environment. A name or a value that is not valid UTF-8 is
/// `None`.
#[derive(Debug)]
pub struct Variable {
    pub name: Option<String>,
    pub value: Option<String>,
}

/// What each variable holds, by its name; `None` where that is not valid UTF-8.
pub type Holdings = Map<Seq<char>, Option<Seq<char>>>;

/// The characters of a string, if there is one.
pub open spec fn text_of(string: Option<String>) -> Option<Seq<char>> {
    match string {
        Some(text) => Some(text@),
        None => None,
    }
}

/// What the variables hold. One without a valid name is passed over; of two
/// with the same name the later counts.
pub open spec fn holdings_of(variables: Seq<Variable>) -> Holdings
    decreases variables.len(),
{
    if variables.len() == 0 {
        Map::empty()
    } else {
        let earlier = holdings_of(variables.drop_last());
        match variables.last().name {
            Some(name) => earlier.insert(name@, text_of(variables.last().value)),
            None => earlier,
        }
    }
}

/// The variables that a document can refer to.
pub struct Environment {
    variables: Vec<(String, Option<String>)>,
}

/// What the named variables hold, the later of two with the same name counting.
pub closed spec fn named_holdings(variables: Seq<(String, Option<String>)>) -> Holdings
    decreases variables.len(),
{
    if variables.len() == 0 {
        Map::empty()
    } else {
        named_holdings(variables.drop_last()).insert(
            variables.last().0@,
            text_of(variables.last().1),
        )
    }
}

impl Environment {
    /// What the variables hold.
    pub closed spec fn view(&self) -> Holdings {
        named_holdings(self.variables@)
    }

    /// Collects the variables that have a valid name.
    pub fn new(variables: Vec<Variable>) -> (environment: Self)
        ensures
            environment@ == holdings_of(variables@),
    {
        let ghost all = variables@;
        let mut named: Vec<(String, Option<String>)> = Vec::new();
        for variable in remaining: variables
            invariant
                remaining.seq() == all,
                named_holdings(named@) == holdings_of(all.take(remaining.index())),
        {
            proof {
                assert(all.take(remaining.index() + 1).drop_last() =~= all.take(remaining.index()));
            }
            if let Some(name) = variable.name {
                let ghost before = named@;
                named.push((name, variable.value));
                assert(named@.drop_last() =~= before);
            }
        }
        assert(all.take(all.len() as int) =~= all);
        Environment { variables: named }
    }

    /// The names of the variables.
    pub fn names(&self) -> (names: NameSet)
        ensures
            names.well_formed(),
            names@ == self@.dom(),
    {
        let ghost all = self.variables@;
        let mut names = NameSet::new();
        let mut index: usize = 0;
        assert(names@ =~= named_holdings(all.take(0)).dom());
        while index < self.variables.len()
            invariant
                all == self.variables@,
                index <= all.len(),
                names.well_formed(),
                names@ == named_holdings(all.take(index as int)).dom(),
            decreases all.len() - index,
        {
            names.insert(self.variables[index].0.clone());
            proof {
                assert(all.take(index + 1).drop_last() =~= all.take(index as int));
            }
            index = index + 1;
            assert(names@ =~= named_holdings(all.take(index as int)).dom());
        }
        assert(all.take(index as int) =~= all);
        names
    }
}

/// What a variable that a document refers to holds: it has to be set, to valid
/// UTF-8.
pub open spec fn lookup(holdings: Holdings, name: Seq<char>) -> Result<
    Seq<char>,
    ResolveErrorView,
> {
    if !holdings.contains_key(name) {
        Err(ResolveErrorView::NotFound(name))
    } else {
        match holdings[name] {
            Some(text) => Ok(text),
            None => Err(ResolveErrorView::NotUnicode(name)),
        }
    }
}

/// Looks a variable up.
pub fn variable<'a>(variables: &'a Environment, name: &str) -> (result: Result<
    &'a str,
    ResolveError,
>)
    ensures
        match result {
            Ok(text) => lookup(variables@, name@) == Ok::<Seq<char>, ResolveErrorView>(text@),
            Err(error) => lookup(variables@, name@) == Err::<Seq<char>, ResolveErrorView>(error@),
        },
{
    let mut left: usize = variables.variables.len();
    assert(variables.variables@.take(left as int) =~= variables.variables@);
    while left > 0
        invariant
            left <= variables.variables@.len(),
            lookup(variables@, name@) == lookup(
                named_holdings(variables.variables@.take(left as int)),
                name@,
            ),
        decreases left,
    {
        let entry = &variables.variables[left - 1];
        proof {
            assert(variables.variables@.take(left as int).drop_last()
                =~= variables.variables@.take(left - 1));
        }
        if same(entry.0.as_str(), name) {
            return match &entry.1 {
                Some(text) => Ok(text.as_str()),
                None => Err(ResolveError::NotUnicode(name.to_owned())),
            };
        }
        left = left - 1;
    }
    Err(ResolveError::NotFound(name.to_owned()))
}

/// The value of a document that is to hold nothing but the key `value`.
pub open spec fn sole_value_of(
    name: Seq<char>,
    parsed: Result<ValueView, toml::de::Error>,
) -> Result<ValueView, ResolveErrorView> {
    match parsed {
        Ok(ValueView::Table(entries)) => if entries.len() == 1 && entries[0].0 == "value"@ {
            Ok(entries[0].1)
        } else {
            Err(ResolveErrorView::InvalidValue(name))
        },
        _ => Err(ResolveErrorView::InvalidValue(name)),
    }
}

/// What the text of a variable stands for as a TOML value.
pub open spec fn value_in(name: Seq<char>, text: Seq<char>) -> Result<
    ValueView,
    ResolveErrorView,
> {
    sole_value_of(name, document::toml_document("value = "@ + text))
}

/// What a document that was read holds as its only entry, under the key `value`.
pub fn sole_value(name: &str, parsed: Result<ConfigTable, toml::de::Error>) -> (result: Result<
    ConfigValue,
    ResolveError,
>)
    ensures
        ({
            let view = match parsed {
                Ok(table) => Ok::<ValueView, toml::de::Error>(ValueView::Table(table@)),
                Err(error) => Err(error),
            };
            match result {
                Ok(value) => sole_value_of(name@, view) == Ok::<ValueView, ResolveErrorView>(
                    value@,
                ),
                Err(error) => sole_value_of(name@, view) == Err::<ValueView, ResolveErrorView>(
                    error@,
                ),
            }
        }),
{
    if let Ok(table) = parsed {
        let mut entries = table.entries;
        if entries.len() == 1 {
            if let Some((key, value)) = entries.pop() {
                if same(key.as_str(), "value") {
                    return Ok(value);
                }
            }
        }
    }
    Err(ResolveError::InvalidValue(name.to_owned()))
}

/// Reads the text of a variable as a TOML value.
pub fn parse_toml_value(name: &str, value: &str) -> (result: Result<ConfigValue, ResolveError>)
    ensures
        match result {
            Ok(parsed) => value_in(name@, value@) == Ok::<ValueView, ResolveErrorView>(parsed@)
                && parsed@.well_formed(),
            Err(error) => value_in(name@, value@) == Err::<ValueView, ResolveErrorView>(error@),
        },
{
    let mut document = String::new();
    document.append("value = ");
    document.append(value);
    assert(document@ =~= "value = "@ + value@);
    sole_value(name, read_document(document.as_str()))
}

/// What a marker stands for: the value of a variable.
pub struct Replacement {
    pub marker: String,
    pub name: String,
    pub value: ConfigValue,
}

/// For each marker the name of its variable and the value that it stands for.
pub type Stands = Map<Seq<char>, (Seq<char>, ValueView)>;

/// What the markers stand for, the later of two equal ones counting.
pub open spec fn stands_of(replacements: Seq<Replacement>) -> Stands
    decreases replacements.len(),
{
    if replacements.len() == 0 {
        Map::empty()
    } else {
        stands_of(replacements.drop_last()).insert(
            replacements.last().marker@,
            (replacements.last().name@, replacements.last().value@),
        )
    }
}

/// The replacement of a marker.
fn replacement_for<'a>(replacements: &'a Vec<Replacement>, text: &str) -> (result: Option<
    &'a Replacement,
>)
    ensures
        match result {
            Some(replacement) => stands_of(replacements@).contains_key(text@) && stands_of(
                replacements@,
            )[text@] == (replacement.name@, replacement.value@),
            None => !stands_of(replacements@).contains_key(text@),
        },
{
    let mut left: usize = replacements.len();
    assert(replacements@.take(left as int) =~= replacements@);
    while left > 0
        invariant
            left <= replacements@.len(),
            stands_of(replacements@).contains_key(text@) == stands_of(
                replacements@.take(left as int),
            ).contains_key(text@),
            stands_of(replacements@).contains_key(text@) ==> stands_of(replacements@)[text@]
                == stands_of(replacements@.take(left as int))[text@],
        decreases left,
    {
        let replacement = &replacements[left - 1];
        proof {
            assert(replacements@.take(left as int).drop_last() =~= replacements@.take(left - 1));
        }
        if same(replacement.marker.as_str(), text) {
            return Some(replacement);
        }
        left = left - 1;
    }
    None
}

/// What resolving leaves behind: the value as it then is, the names of the
/// variables that were put in, and the error that stopped it, if one did.
pub struct Outcome<V> {
    pub value: V,
    pub names: Set<Seq<char>>,
    pub error: Option<ResolveErrorView>,
}

/// Resolves a value. A marker becomes the value that it stands for, and a text
/// that is a placeholder becomes the text of its variable; arrays and tables
/// are resolved through and through. What comes after an error stays as it was.
pub open spec fn resolved(value: ValueView, holdings: Holdings, stands: Stands) -> Outcome<
    ValueView,
>
    decreases value, 0int,
{
    match value {
        ValueView::Text(text) => resolved_text(text, holdings, stands),
        ValueView::Array(items) => {
            let outcome = resolved_items(items, items.len(), holdings, stands);
            Outcome {
                value: ValueView::Array(outcome.value),
                names: outcome.names,
                error: outcome.error,
            }
        },
        ValueView::Table(entries) => {
            let outcome = resolved_entries(entries, entries.len(), holdings, stands);
            Outcome {
                value: ValueView::Table(outcome.value),
                names: outcome.names,
                error: outcome.error,
            }
        },
        _ => Outcome { value, names: Set::empty(), error: None },
    }
}

/// Resolves a text.
pub open spec fn resolved_text(text: Seq<char>, holdings: Holdings, stands: Stands) -> Outcome<
    ValueView,
> {
    let unchanged = ValueView::Text(text);
    if stands.contains_key(text) {
        Outcome { value: stands[text].1, names: set![stands[text].0], error: None }
    } else {
        match mask::quoted_name(text) {
            Some(name) => match lookup(holdings, name) {
                Ok(held) => Outcome {
                    value: ValueView::Text(held),
                    names: set![name],
                    error: None,
                },
                Err(error) => Outcome {
                    value: unchanged,
                    names: Set::empty(),
                    error: Some(error),
                },
            },
            None => Outcome { value: unchanged, names: Set::empty(), error: None },
        }
    }
}

/// Resolves the first `count` items of an array.
pub open spec fn resolved_items(
    items: Seq<ValueView>,
    count: nat,
    holdings: Holdings,
    stands: Stands,
) -> Outcome<Seq<ValueView>>
    decreases items, count,
{
    if count == 0 || count > items.len() {
        Outcome { value: items, names: Set::empty(), error: None }
    } else {
        let index = count - 1;
        let before = resolved_items(items, index as nat, holdings, stands);
        let outcome = resolved(items[index], holdings, stands);
        if before.error is Some {
            before
        } else {
            Outcome {
                value: before.value.update(index, outcome.value),
                names: before.names.union(outcome.names),
                error: outcome.error,
            }
        }
    }
}

/// Resolves the values of the first `count` entries of a table.
pub open spec fn resolved_entries(
    entries: Seq<(Seq<char>, ValueView)>,
    count: nat,
    holdings: Holdings,
    stands: Stands,
) -> Outcome<Seq<(Seq<char>, ValueView)>>
    decreases entries, count,
{
    if count == 0 || count > entries.len() {
        Outcome { value: entries, names: Set::empty(), error: None }
    } else {
        let index = count - 1;
        let before = resolved_entries(entries, index as nat, holdings, stands);
        let outcome = resolved(entries[index].1, holdings, stands);
        if before.error is Some {
            before
        } else {
            Outcome {
                value: before.value.update(index, (entries[index].0, outcome.value)),
                names: before.names.union(outcome.names),
                error: outcome.error,
            }
        }
    }
}

/// Resolves a value in place, and collects the names of the variables that were
/// put in.
pub fn resolve_values(
    value: &mut ConfigValue,
    variables: &Environment,
    replacements: &Vec<Replacement>,
    referenced: &mut NameSet,
) -> (result: Result<(), ResolveError>)
    requires
        old(referenced).well_formed(),
    ensures
        final(referenced).well_formed(),
        ({
            let outcome = resolved(old(value)@, variables@, stands_of(replacements@));
            &&& final(value)@ == outcome.value
            &&& final(referenced)@ == old(referenced)@.union(outcome.names)
            &&& match result {
                Ok(()) => outcome.error is None,
                Err(error) => outcome.error == Some(error@),
            }
        }),
    decreases *old(value),
{
    match value {
        ConfigValue::Text(text) => {
            if let Some(replacement) = replacement_for(replacements, text.as_str()) {
                referenced.insert(replacement.name.clone());
                *value = replacement.value.clone();
                return Ok(());
            }
            if let Some(name) = placeholder_name(text.as_str()) {
                let name = name.to_owned();
                match variable(variables, name.as_str()) {
                    Ok(held) => {
                        *value = ConfigValue::Text(held.to_owned());
                        referenced.insert(name);
                    },
                    Err(error) => {
                        return Err(error);
                    },
                }
            }
            Ok(())
        },
        ConfigValue::Array(items) => {
            proof {
                lemma_array_view(*items);
            }
            let result = resolve_items(items, variables, replacements, referenced);
            proof {
                lemma_array_view(*items);
            }
            result
        },
        ConfigValue::Table(table) => resolve_entries(table, variables, replacements, referenced),
        _ => {
            assert(referenced@.union(Set::empty()) =~= referenced@);
            Ok(())
        },
    }
}

/// What the items of an array hold.
pub open spec fn views_of(items: Seq<ConfigValue>) -> Seq<ValueView> {
    Seq::new(items.len(), |i: int| items[i]@)
}

/// An array holds what its items hold.
proof fn lemma_array_view(items: Vec<ConfigValue>)
    ensures
        ConfigValue::Array(items)@ == ValueView::Array(views_of(items@)),
{
    assert(ConfigValue::Array(items)@->Array_0 =~= views_of(items@));
}

/// After an error nothing more of an array is resolved.
pub(crate) proof fn lemma_items_stop(
    items: Seq<ValueView>,
    count: nat,
    more: nat,
    holdings: Holdings,
    stands: Stands,
)
    requires
        count <= more <= items.len(),
        resolved_items(items, count, holdings, stands).error is Some,
    ensures
        resolved_items(items, more, holdings, stands) == resolved_items(
            items,
            count,
            holdings,
            stands,
        ),
    decreases more,
{
    if count < more {
        lemma_items_stop(items, count, (more - 1) as nat, holdings, stands);
    }
}

/// After an error nothing more of a table is resolved.
pub(crate) proof fn lemma_entries_stop(
    entries: Seq<(Seq<char>, ValueView)>,
    count: nat,
    more: nat,
    holdings: Holdings,
    stands: Stands,
)
    requires
        count <= more <= entries.len(),
        resolved_entries(entries, count, holdings, stands).error is Some,
    ensures
        resolved_entries(entries, more, holdings, stands) == resolved_entries(
            entries,
            count,
            holdings,
            stands,
        ),
    decreases more,
{
    if count < more {
        lemma_entries_stop(entries, count, (more - 1) as nat, holdings, stands);
    }
}

/// Resolves the items of an array in place.
fn resolve_items(
    items: &mut Vec<ConfigValue>,
    variables: &Environment,
    replacements: &Vec<Replacement>,
    referenced: &mut NameSet,
) -> (result: Result<(), ResolveError>)
    requires
        old(referenced).well_formed(),
    ensures
        final(referenced).well_formed(),
        ({
            let views = views_of(old(items)@);
            let outcome = resolved_items(views, views.len(), variables@, stands_of(replacements@));
            &&& views_of(final(items)@) == outcome.value
            &&& final(referenced)@ == old(referenced)@.union(outcome.names)
            &&& match result {
                Ok(()) => outcome.error is None,
                Err(error) => outcome.error == Some(error@),
            }
        }),
    decreases *old(items),
{
    let ghost views = views_of(items@);
    let ghost stands = stands_of(replacements@);
    let mut index: usize = 0;
    assert(referenced@.union(Set::empty()) =~= referenced@);
    while index < items.len()
        invariant
            views == views_of(old(items)@),
            stands == stands_of(replacements@),
            index <= items@.len(),
            items@.len() == old(items)@.len(),
            forall|i: int| index <= i < items@.len() ==> #[trigger] items@[i] == old(items)@[i],
            referenced.well_formed(),
            ({
                let outcome = resolved_items(views, index as nat, variables@, stands);
                &&& views_of(items@) == outcome.value
                &&& referenced@ == old(referenced)@.union(outcome.names)
                &&& outcome.error is None
            }),
        decreases items@.len() - index,
    {
        let ghost before = views_of(items@);
        let ghost names = resolved_items(views, index as nat, variables@, stands).names;
        let ghost outcome = resolved(views[index as int], variables@, stands);
        let result = resolve_values(&mut items[index], variables, replacements, referenced);
        proof {
            assert(views_of(items@) =~= before.update(index as int, outcome.value));
            assert(referenced@ =~= old(referenced)@.union(names.union(outcome.names)));
        }
        index = index + 1;
        if let Err(error) = result {
            proof {
                lemma_items_stop(views, index as nat, views.len(), variables@, stands);
            }
            return Err(error);
        }
    }
    Ok(())
}

/// Resolves the values of a table in place.
fn resolve_entries(
    table: &mut ConfigTable,
    variables: &Environment,
    replacements: &Vec<Replacement>,
    referenced: &mut NameSet,
) -> (result: Result<(), ResolveError>)
    requires
        old(referenced).well_formed(),
    ensures
        final(referenced).well_formed(),
        ({
            let outcome = resolved_entries(
                old(table)@,
                old(table)@.len(),
                variables@,
                stands_of(replacements@),
            );
            &&& final(table)@ == outcome.value
            &&& final(referenced)@ == old(referenced)@.union(outcome.names)
            &&& match result {
                Ok(()) => outcome.error is None,
                Err(error) => outcome.error == Some(error@),
            }
        }),
    decreases *old(table),
{
    let ghost views = table@;
    let ghost stands = stands_of(replacements@);
    let mut index: usize = 0;
    assert(referenced@.union(Set::empty()) =~= referenced@);
    while index < table.entries.len()
        invariant
            views == old(table)@,
            stands == stands_of(replacements@),
            index <= table.entries@.len(),
            table.entries@.len() == old(table).entries@.len(),
            forall|i: int|
                index <= i < table.entries@.len() ==> #[trigger] table.entries@[i]
                    == old(table).entries@[i],
            referenced.well_formed(),
            ({
                let outcome = resolved_entries(views, index as nat, variables@, stands);
                &&& table@ == outcome.value
                &&& referenced@ == old(referenced)@.union(outcome.names)
                &&& outcome.error is None
            }),
        decreases table.entries@.len() - index,
    {
        let ghost before = table@;
        let ghost names = resolved_entries(views, index as nat, variables@, stands).names;
        let ghost outcome = resolved(views[index as int].1, variables@, stands);
        let result = resolve_values(
            &mut table.entries[index].1,
            variables,
            replacements,
            referenced,
        );
        proof {
            assert(table@ =~= before.update(
                index as int,
                (views[index as int].0, outcome.value),
            ));
            assert(referenced@ =~= old(referenced)@.union(names.union(outcome.names)));
        }
        index = index + 1;
        if let Err(error) = result {
            proof {
                lemma_entries_stop(views, index as nat, views.len(), variables@, stands);
            }
            return Err(error);
        }
    }
    Ok(())
}

/// What the markers of placeholders stand for: for each, in order, the value
/// that its variable holds. The first error stops it.
pub open spec fn stands_for(
    placeholders: Seq<(Seq<char>, Seq<char>)>,
    holdings: Holdings,
) -> Result<Stands, ResolveErrorView>
    decreases placeholders.len(),
{
    if placeholders.len() == 0 {
        Ok(Map::empty())
    } else {
        let (marker, name) = placeholders.last();
        match stands_for(placeholders.drop_last(), holdings) {
            Err(error) => Err(error),
            Ok(earlier) => match lookup(holdings, name) {
                Err(error) => Err(error),
                Ok(text) => match value_in(name, text) {
                    Err(error) => Err(error),
                    Ok(value) => Ok(earlier.insert(marker, (name, value))),
                },
            },
        }
    }
}

/// After an error no more placeholders are looked at.
proof fn lemma_stands_stop(placeholders: Seq<(Seq<char>, Seq<char>)>, count: int, holdings: Holdings)
    requires
        0 <= count <= placeholders.len(),
        stands_for(placeholders.take(count), holdings) is Err,
    ensures
        stands_for(placeholders, holdings) == stands_for(placeholders.take(count), holdings),
    decreases placeholders.len(),
{
    if count < placeholders.len() {
        assert(placeholders.drop_last().take(count) =~= placeholders.take(count));
        lemma_stands_stop(placeholders.drop_last(), count, holdings);
    } else {
        assert(placeholders.take(count) =~= placeholders);
    }
}

/// The values that replacements put in are well-formed.
pub open spec fn replacements_well_formed(replacements: Seq<Replacement>) -> bool {
    forall|i: int| 0 <= i < replacements.len() ==> (#[trigger] replacements[i]).value@.well_formed()
}

/// Looks up the variable of each placeholder and reads the value that it holds.
pub fn collect_replacements(placeholders: Vec<Placeholder>, variables: &Environment) -> (result:
    Result<Vec<Replacement>, ResolveError>)
    ensures
        match result {
            Ok(replacements) => stands_for(
                mask::placeholder_views(placeholders@),
                variables@,
            ) == Ok::<Stands, ResolveErrorView>(stands_of(replacements@))
                && replacements_well_formed(replacements@),
            Err(error) => stands_for(
                mask::placeholder_views(placeholders@),
                variables@,
            ) == Err::<Stands, ResolveErrorView>(error@),
        },
{
    let ghost all = placeholders@;
    let ghost views = mask::placeholder_views(all);
    let mut replacements: Vec<Replacement> = Vec::new();
    for placeholder in remaining: placeholders
        invariant
            remaining.seq() == all,
            views == mask::placeholder_views(all),
            stands_for(views.take(remaining.index()), variables@) == Ok::<Stands, ResolveErrorView>(
                stands_of(replacements@),
            ),
            replacements_well_formed(replacements@),
    {
        let ghost index = remaining.index();
        let ghost before = replacements@;
        let ghost soon = views.take(index + 1);
        proof {
            assert(soon.drop_last() =~= views.take(index));
            assert(soon.last() == (placeholder.marker@, placeholder.name@));
        }
        let text = match variable(variables, placeholder.name.as_str()) {
            Ok(text) => text,
            Err(error) => {
                proof {
                    lemma_stands_stop(views, index + 1, variables@);
                }
                return Err(error);
            },
        };
        let value = match parse_toml_value(placeholder.name.as_str(), text) {
            Ok(value) => value,
            Err(error) => {
                proof {
                    lemma_stands_stop(views, index + 1, variables@);
                }
                return Err(error);
            },
        };
        replacements.push(
            Replacement { marker: placeholder.marker, name: placeholder.name, value },
        );
        assert(replacements@.drop_last() =~= before);
    }
    assert(views.take(views.len() as int) =~= views);
    Ok(replacements)
}

/// Every value that a marker stands for is well-formed.
pub open spec fn stands_well_formed(stands: Stands) -> bool {
    forall|marker: Seq<char>|
        stands.contains_key(marker) ==> (#[trigger] stands[marker]).1.well_formed()
}

/// What well-formed replacements put in is well-formed.
proof fn lemma_stands_well_formed(replacements: Seq<Replacement>)
    requires
        replacements_well_formed(replacements),
    ensures
        stands_well_formed(stands_of(replacements)),
    decreases replacements.len(),
{
    if replacements.len() > 0 {
        let earlier = replacements.drop_last();
        assert forall|i: int| 0 <= i < earlier.len() implies (
        #[trigger] earlier[i]).value@.well_formed() by {
            assert(earlier[i] == replacements[i]);
        }
        lemma_stands_well_formed(earlier);
    }
}

/// Resolving keeps a value well-formed: the keys of its tables stay as they
/// were, and what is put in is well-formed.
pub proof fn law_resolved_well_formed(value: ValueView, holdings: Holdings, stands: Stands)
    requires
        value.well_formed(),
        stands_well_formed(stands),
    ensures
        resolved(value, holdings, stands).value.well_formed(),
    decreases value, 0int,
{
    match value {
        ValueView::Array(items) => {
            lemma_items_well_formed(items, items.len(), holdings, stands);
        },
        ValueView::Table(entries) => {
            lemma_entries_well_formed(entries, entries.len(), holdings, stands);
        },
        _ => {},
    }
}

proof fn lemma_items_well_formed(
    items: Seq<ValueView>,
    count: nat,
    holdings: Holdings,
    stands: Stands,
)
    requires
        forall|i: int| 0 <= i < items.len() ==> (#[trigger] items[i]).well_formed(),
        stands_well_formed(stands),
        count <= items.len(),
    ensures
        ({
            let after = resolved_items(items, count, holdings, stands).value;
            &&& after.len() == items.len()
            &&& forall|i: int| 0 <= i < after.len() ==> (#[trigger] after[i]).well_formed()
        }),
    decreases items, count,
{
    if count > 0 {
        lemma_items_well_formed(items, (count - 1) as nat, holdings, stands);
        law_resolved_well_formed(items[count - 1], holdings, stands);
    }
}

proof fn lemma_entries_well_formed(
    entries: Seq<(Seq<char>, ValueView)>,
    count: nat,
    holdings: Holdings,
    stands: Stands,
)
    requires
        forall|i: int| 0 <= i < entries.len() ==> (#[trigger] entries[i]).1.well_formed(),
        document::keys_increase(entries),
        stands_well_formed(stands),
        count <= entries.len(),
    ensures
        ({
            let after = resolved_entries(entries, count, holdings, stands).value;
            &&& after.len() == entries.len()
            &&& forall|i: int| 0 <= i < after.len() ==> (#[trigger] after[i]).0 == entries[i].0
            &&& forall|i: int| 0 <= i < after.len() ==> (#[trigger] after[i]).1.well_formed()
            &&& document::keys_increase(after)
        }),
    decreases entries, count,
{
    if count > 0 {
        lemma_entries_well_formed(entries, (count - 1) as nat, holdings, stands);
        law_resolved_well_formed(entries[count - 1].1, holdings, stands);
        let after = resolved_entries(entries, count, holdings, stands).value;
        assert forall|i: int, j: int|
            #![trigger after[i], after[j]]
            0 <= i < j < after.len() implies text::precedes(after[i].0, after[j].0) by {
            assert(after[i].0 == entries[i].0 && after[j].0 == entries[j].0);
        }
    }
}

/// Resolves a table that was read, with what the markers in it stand for, and
/// lists the variables that were put in.
pub fn resolve_table(
    table: ConfigTable,
    variables: &Environment,
    replacements: &Vec<Replacement>,
) -> (result: Result<(ConfigTable, Vec<String>), ResolveError>)
    ensures
        ({
            let outcome = resolved(
                ValueView::Table(table@),
                variables@,
                stands_of(replacements@),
            );
            match result {
                Ok((after, names)) => outcome.error is None && outcome.value == ValueView::Table(
                    after@,
                ) && names::lists(text::texts(names@), outcome.names),
                Err(error) => outcome.error == Some(error@),
            }
        }),
{
    let mut value = ConfigValue::Table(table);
    let mut referenced = NameSet::new();
    match resolve_values(&mut value, variables, replacements, &mut referenced) {
        Ok(()) => {},
        Err(error) => {
            return Err(error);
        },
    }
    proof {
        let names = resolved(
            ValueView::Table(table@),
            variables@,
            stands_of(replacements@),
        ).names;
        assert(Set::<Seq<char>>::empty().union(names) =~= names);
    }
    match value {
        ConfigValue::Table(after) => Ok((after, referenced.into_names())),
        _ => vstd::pervasive::unreached(),
    }
}

/// What a document resolves to with given variables: the root table with every
/// placeholder replaced, and the names of the variables that were put in.
pub open spec fn resolution(document: Seq<char>, holdings: Holdings) -> Result<
    (ValueView, Set<Seq<char>>),
    ResolveErrorView,
> {
    match reading::reading(document) {
        Err(error) => Err(ResolveErrorView::Document(error)),
        Ok((prefix, root)) => match stands_for(
            mask::placeholders_with(document, prefix),
            holdings,
        ) {
            Err(error) => Err(error),
            Ok(stands) => {
                let outcome = resolved(root, holdings, stands);
                match outcome.error {
                    Some(error) => Err(error),
                    None => Ok((outcome.value, outcome.names)),
                }
            },
        },
    }
}

/// The document was read as it is, with no variable put in, or refused as it is.
pub open spec fn is_read_as_it_is(
    document: Seq<char>,
    result: Result<(ConfigTable, Vec<String>), ResolveError>,
) -> bool {
    match document::toml_document(document) {
        Ok(root) => result matches Ok((table, names)) && root == ValueView::Table(table@)
            && names@.len() == 0,
        Err(error) => result matches Err(refused) && refused@ == ResolveErrorView::Document(error),
    }
}

/// Resolves the placeholders of a document, and lists the variables that were
/// put in. Where a document has neither dollar signs nor backslashes, that is
/// what is read from it, whatever the variables.
pub fn resolve(document: &str, variables: Vec<Variable>) -> (result: Result<
    (ConfigTable, Vec<String>),
    ResolveError,
>)
    ensures
        match result {
            Ok((table, names)) => {
                &&& resolution(document@, holdings_of(variables@)) matches Ok((root, referenced))
                &&& root == ValueView::Table(table@)
                &&& root.well_formed()
                &&& names::lists(text::texts(names@), referenced)
            },
            Err(error) => resolution(document@, holdings_of(variables@)) == Err::<
                (ValueView, Set<Seq<char>>),
                ResolveErrorView,
            >(error@),
        },
        !document@.contains('$') && !document@.contains('\\') ==> is_read_as_it_is(
            document@,
            result,
        ),
{
    let variables = Environment::new(variables);
    resolve_document(document, &variables)
}

/// Resolves the placeholders of a document with the variables of an environment.
pub fn resolve_document(document: &str, variables: &Environment) -> (result: Result<
    (ConfigTable, Vec<String>),
    ResolveError,
>)
    ensures
        match result {
            Ok((table, names)) => {
                &&& resolution(document@, variables@) matches Ok((root, referenced))
                &&& root == ValueView::Table(table@)
                &&& root.well_formed()
                &&& names::lists(text::texts(names@), referenced)
            },
            Err(error) => resolution(document@, variables@) == Err::<
                (ValueView, Set<Seq<char>>),
                ResolveErrorView,
            >(error@),
        },
        !document@.contains('$') && !document@.contains('\\') ==> is_read_as_it_is(
            document@,
            result,
        ),
{
    proof {
        if !document@.contains('$') {
            reading_laws::lemma_no_dollar_is_read(document@);
        }
    }
    let Reading { table, placeholders } = match read_masked(document) {
        Ok(read) => read,
        Err(error) => {
            return Err(ResolveError::Document(error));
        },
    };
    let replacements = match collect_replacements(placeholders, variables) {
        Ok(replacements) => replacements,
        Err(error) => {
            return Err(error);
        },
    };
    proof {
        lemma_stands_well_formed(replacements@);
        law_resolved_well_formed(
            ValueView::Table(table@),
            variables@,
            stands_of(replacements@),
        );
        if !document@.contains('$') && !document@.contains('\\') {
            reading_laws::law_without_dollar_signs_nothing_is_put_in(document@, variables@);
        }
    }
    let result = resolve_table(table, variables, &replacements);
    proof {
        if let Ok((_, names)) = &result {
            names::lemma_no_members(text::texts(names@));
        }
    }
    result
}

} // verus!
