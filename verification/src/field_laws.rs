//! What overriding promises of names, paths and fields.
use vstd::prelude::*;

use crate::document::ValueView;
use crate::env::{self, Holdings, ResolveErrorView};
use crate::fields::{self, FieldKind};
use crate::{names, overrides, overrides_laws, text};

verus! {

/// A capital ASCII letter becomes its small one, and every other character stays.
pub proof fn law_capitals_become_small(character: char)
    ensures
        'A' <= character <= 'Z' ==> overrides::lowered(character) as u32 == character as u32 + 32,
        !('A' <= character <= 'Z') ==> overrides::lowered(character) == character,
        !('A' <= overrides::lowered(character) <= 'Z'),
{
}

/// A text in lower case has the same length, and each of its characters is the
/// one that stood there, small.
pub proof fn law_lower_case_goes_by_character(text: Seq<char>, index: int)
    requires
        0 <= index < text.len(),
    ensures
        overrides::lower(text).len() == text.len(),
        'A' <= text[index] <= 'Z' ==> overrides::lower(text)[index] as u32 == text[index] as u32
            + 32,
        !('A' <= text[index] <= 'Z') ==> overrides::lower(text)[index] == text[index],
        !('A' <= overrides::lower(text)[index] <= 'Z'),
{
}

/// The first two underscores in a row: they stand there, and none before.
proof fn lemma_separator_found(text: Seq<char>, at: int)
    requires
        0 <= at <= text.len(),
        forall|i: int|
            0 <= i < at && i + 1 < text.len() ==> !(#[trigger] text[i] == '_' && text[i + 1]
                == '_'),
        at < text.len() ==> at + 1 < text.len() && text[at] == '_' && text[at + 1] == '_',
    ensures
        overrides::separator_at(text) == at,
    decreases text.len(),
{
    if text.len() >= 2 && at > 0 {
        let rest = text.skip(1);
        assert(!(text[0] == '_' && text[1] == '_'));
        assert forall|i: int| 0 <= i < at - 1 && i + 1 < rest.len() implies !(#[trigger] rest[i]
            == '_' && rest[i + 1] == '_') by {
            assert(rest[i] == text[i + 1] && rest[i + 1] == text[i + 2]);
        }
        lemma_separator_found(rest, at - 1);
    }
}

/// A name without double underscores is one segment, in lower case.
pub proof fn law_one_segment(text: Seq<char>)
    requires
        forall|i: int|
            0 <= i < text.len() - 1 ==> !(#[trigger] text[i] == '_' && text[i + 1] == '_'),
    ensures
        overrides::segments(text) == seq![overrides::lower(text)],
{
    lemma_separator_found(text, text.len() as int);
}

/// The first double underscore ends a segment: what comes before it is the first,
/// in lower case, and what comes after it makes the others.
pub proof fn law_first_segment(before: Seq<char>, after: Seq<char>)
    requires
        ({
            let text = before + seq!['_', '_'] + after;
            forall|i: int|
                0 <= i < before.len() ==> !(#[trigger] text[i] == '_' && text[i + 1] == '_')
        }),
    ensures
        overrides::segments(before + seq!['_', '_'] + after) == seq![overrides::lower(before)]
            + overrides::segments(after),
{
    let text = before + seq!['_', '_'] + after;
    let at = before.len() as int;
    assert(text[at] == '_' && text[at + 1] == '_');
    lemma_separator_found(text, at);
    assert(text.take(at) =~= before);
    assert(text.skip(at + 2) =~= after);
}

/// A variable overrides the field at a path if and only if its name is
/// `R2S_CONFIG__` with the segments of the path after it: two at least, and none
/// of them empty.
pub proof fn law_which_variables_override(name: Seq<char>, rest: Seq<char>)
    ensures
        overrides::override_path("R2S_CONFIG__"@ + rest) is Some <==> overrides::segments(
            rest,
        ).len() >= 2 && forall|i: int|
            0 <= i < overrides::segments(rest).len() ==> (#[trigger] overrides::segments(
                rest,
            )[i]).len() > 0,
        overrides::override_path("R2S_CONFIG__"@ + rest) matches Some(path) ==> path
            == overrides::segments(rest),
        overrides::override_path(name) is Some ==> "R2S_CONFIG__"@.is_prefix_of(name),
{
    let prefix = "R2S_CONFIG__"@;
    let whole = prefix + rest;
    assert(whole.skip(prefix.len() as int) =~= rest);
    assert(prefix =~= whole.take(prefix.len() as int));
}

/// The overriding variables are those that are set and override a field.
pub proof fn law_overriding_variables(holdings: Holdings, name: Seq<char>)
    ensures
        overrides::override_names(holdings).contains(name) <==> holdings.contains_key(name)
            && overrides::override_path(name) is Some,
{
}

/// In a table in key order an entry is found by its key if and only if it is one
/// of the entries.
pub proof fn law_entries_are_found_by_their_keys(
    entries: Seq<(Seq<char>, ValueView)>,
    key: Seq<char>,
    value: ValueView,
)
    requires
        forall|i: int, j: int|
            #![trigger entries[i], entries[j]]
            0 <= i < j < entries.len() ==> text::precedes(entries[i].0, entries[j].0),
    ensures
        overrides::entry_at(entries, key) == Some(value) <==> exists|i: int|
            0 <= i < entries.len() && #[trigger] entries[i] == (key, value),
        overrides::entry_at(entries, key) is None <==> forall|i: int|
            0 <= i < entries.len() ==> (#[trigger] entries[i]).0 != key,
{
    let place = overrides::place_of(entries, key);
    overrides::lemma_place_of(entries, key);
    names::lemma_precedes_irreflexive(key);
    assert forall|i: int| 0 <= i < entries.len() && (#[trigger] entries[i]).0 == key implies i
        == place by {
        if i < place {
            assert(text::precedes(entries[i].0, key));
        }
        if place < i {
            assert(text::precedes(entries[place].0, entries[i].0));
        }
    }
    if place < entries.len() && entries[place].0 == key {
        assert(entries[place] == (key, entries[place].1));
    }
}

/// What stands at a path: the entry of its only key, or what stands at the rest
/// of the path in the table under its first key.
pub proof fn law_paths_lead_through_tables(
    entries: Seq<(Seq<char>, ValueView)>,
    key: Seq<char>,
    rest: Seq<Seq<char>>,
    inner: Seq<(Seq<char>, ValueView)>,
)
    ensures
        overrides_laws::value_at(entries, seq![key]) == overrides::entry_at(entries, key),
        rest.len() > 0 && overrides::entry_at(entries, key) == Some(ValueView::Table(inner))
            ==> overrides_laws::value_at(entries, seq![key] + rest) == overrides_laws::value_at(
            inner,
            rest,
        ),
        rest.len() > 0 && !(overrides::entry_at(entries, key) matches Some(ValueView::Table(_)))
            ==> overrides_laws::value_at(entries, seq![key] + rest) is None,
        overrides_laws::value_at(entries, Seq::empty()) is None,
{
    assert((seq![key] + rest).skip(1) =~= rest);
}

/// Paths part where they have different keys at some place.
pub proof fn law_paths_part_at_a_key(path: Seq<Seq<char>>, other: Seq<Seq<char>>)
    ensures
        overrides_laws::apart(path, other) <==> exists|i: int|
            0 <= i < path.len() && i < other.len() && #[trigger] path[i] != other[i],
    decreases path.len(),
{
    if path.len() > 0 && other.len() > 0 {
        let left = path.skip(1);
        let right = other.skip(1);
        law_paths_part_at_a_key(left, right);
        if path[0] == other[0] {
            if overrides_laws::apart(left, right) {
                let i = choose|i: int|
                    0 <= i < left.len() && i < right.len() && #[trigger] left[i] != right[i];
                assert(path[i + 1] != other[i + 1]);
            }
            if exists|i: int|
                0 <= i < path.len() && i < other.len() && #[trigger] path[i] != other[i] {
                let i = choose|i: int|
                    0 <= i < path.len() && i < other.len() && #[trigger] path[i] != other[i];
                assert(left[i - 1] != right[i - 1]);
            }
        }
    }
}

/// A text field takes the text of the variable, unchanged. Any other field takes
/// the TOML value that the text stands for, unchanged, and the text where it
/// stands for none. Where the kind is open, a field that is left out or holds a
/// text counts as a text field.
pub proof fn law_fields_take_what_the_variable_holds(
    former: Option<ValueView>,
    name: Seq<char>,
    text: Seq<char>,
)
    ensures
        overrides::fitted_as(FieldKind::Text, former, name, text) == ValueView::Text(text),
        env::value_in(name, text) matches Ok(value) ==> overrides::fitted_as(
            FieldKind::Value,
            former,
            name,
            text,
        ) == value,
        env::value_in(name, text) is Err ==> overrides::fitted_as(
            FieldKind::Value,
            former,
            name,
            text,
        ) == ValueView::Text(text),
        former is None || former->0 is Text ==> overrides::fitted_as(
            FieldKind::Open,
            former,
            name,
            text,
        ) == ValueView::Text(text),
        former is Some && !(former->0 is Text) ==> overrides::fitted_as(
            FieldKind::Open,
            former,
            name,
            text,
        ) == overrides::fitted_as(FieldKind::Value, former, name, text),
        overrides::fitted(former, name, text) == overrides::fitted_as(
            FieldKind::Open,
            former,
            name,
            text,
        ),
{
}

/// The text fields and the other fields of the sections that are interpreted: all
/// of them, and no other.
pub proof fn law_kinds_of_fields(path: Seq<Seq<char>>)
    ensures
        fields::kind_at(path) == FieldKind::Text <==> path.len() == 2 && ((path[0] == "auth"@
            && path[1] == "signing_key"@) || (path[0] == "captcha"@ && path[1] == "validator"@) || (
        path[0] == "server"@ && (path[1] == "api_base_path"@ || path[1] == "cors_origins"@
            || path[1] == "external_domain"@ || path[1] == "host"@))),
        fields::kind_at(path) == FieldKind::Value <==> path.len() == 2 && ((path[0] == "auth"@ && (
        path[1] == "buffer_time"@ || path[1] == "expires_time"@)) || (path[0] == "captcha"@ && (
        path[1] == "enabled"@ || path[1] == "difficulty"@)) || (path[0] == "server"@ && (path[1]
            == "external_https"@ || path[1] == "port"@))),
{
    fields::lemma_sections_differ();
    fields::lemma_fields_differ();
}

/// Overriding variables are put in one after another: each into what those before
/// it left, and the first that cannot be looked up decides the error.
pub proof fn law_variables_are_put_in_one_by_one(
    entries: Seq<(Seq<char>, ValueView)>,
    list: Seq<Seq<char>>,
    name: Seq<char>,
    path: Seq<Seq<char>>,
    holdings: Holdings,
)
    requires
        overrides::override_path(name) == Some(path),
    ensures
        overrides::overridden(entries, Seq::empty(), holdings) == Ok::<
            Seq<(Seq<char>, ValueView)>,
            ResolveErrorView,
        >(entries),
        match overrides::overridden(entries, list, holdings) {
            Err(error) => overrides::overridden(entries, list.push(name), holdings) == Err::<
                Seq<(Seq<char>, ValueView)>,
                ResolveErrorView,
            >(error),
            Ok(before) => match env::lookup(holdings, name) {
                Err(error) => overrides::overridden(entries, list.push(name), holdings) == Err::<
                    Seq<(Seq<char>, ValueView)>,
                    ResolveErrorView,
                >(error),
                Ok(held) => overrides::overridden(entries, list.push(name), holdings) == Ok::<
                    Seq<(Seq<char>, ValueView)>,
                    ResolveErrorView,
                >(overrides::put(before, path, name, held)),
            },
        },
{
    assert(list.push(name).drop_last() =~= list);
}

/// A configuration is what its document resolves to, with every overriding
/// variable put in, in the order of their names; all these variables are named.
pub proof fn law_configurations_are_resolved_and_overridden(
    document: Seq<char>,
    holdings: Holdings,
    list: Seq<Seq<char>>,
    name: Seq<char>,
)
    requires
        names::lists(list, overrides::override_names(holdings)),
    ensures
        match env::resolution(document, holdings) {
            Err(error) => overrides::configured(document, holdings) == Err::<
                (ValueView, Set<Seq<char>>),
                ResolveErrorView,
            >(error),
            Ok((ValueView::Table(entries), referenced)) => match overrides::overridden(
                entries,
                list,
                holdings,
            ) {
                Err(error) => overrides::configured(document, holdings) == Err::<
                    (ValueView, Set<Seq<char>>),
                    ResolveErrorView,
                >(error),
                Ok(after) => overrides::configured(document, holdings) matches Ok((root, used))
                    && root == ValueView::Table(after) && (used.contains(name)
                    <==> referenced.contains(name) || (holdings.contains_key(name)
                    && overrides::override_path(name) is Some)),
            },
            Ok(_) => true,
        },
{
    let set = overrides::override_names(holdings);
    names::law_listing_is_unique(list, overrides::listing(set), set);
}

} // verus!
