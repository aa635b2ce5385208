//! Variables that override fields of the configuration: `R2S_CONFIG__SECTION__FIELD`
//! overrides the field `field` of the section `section`.
use vstd::prelude::*;
use vstd::utf8::*;

use crate::document::{ConfigTable, ConfigValue, ValueView};
use crate::env::{
    self, parse_toml_value, resolve_document, variable, Environment, Holdings, ResolveError,
    ResolveErrorView,
};
use crate::fields::{self, field_kind, FieldKind};
use crate::names::{self, NameSet};
use crate::text::{self, cut, is_before, same, starts_with};

verus! {

/// A character with an ASCII letter in lower case.
pub open spec fn lowered(character: char) -> char {
    if 'A' <= character <= 'Z' {
        (character as u32 + 32) as char
    } else {
        character
    }
}

/// A text with its ASCII letters in lower case.
pub open spec fn lower(text: Seq<char>) -> Seq<char> {
    Seq::new(text.len(), |i: int| lowered(text[i]))
}

/// Where the first two underscores in a row stand in a text; its length where
/// there are none.
pub open spec fn separator_at(text: Seq<char>) -> int
    decreases text.len(),
{
    if text.len() < 2 {
        text.len() as int
    } else if text[0] == '_' && text[1] == '_' {
        0
    } else {
        1 + separator_at(text.skip(1))
    }
}

/// Two underscores stand within the text.
pub proof fn lemma_separator_at(text: Seq<char>)
    ensures
        0 <= separator_at(text) <= text.len(),
        separator_at(text) < text.len() ==> separator_at(text) + 2 <= text.len(),
    decreases text.len(),
{
    if text.len() >= 2 && !(text[0] == '_' && text[1] == '_') {
        lemma_separator_at(text.skip(1));
    }
}

/// The parts of a text between its double underscores, in lower case.
pub open spec fn segments(text: Seq<char>) -> Seq<Seq<char>>
    decreases text.len(),
{
    let end = separator_at(text);
    if end >= text.len() {
        seq![lower(text)]
    } else {
        proof {
            lemma_separator_at(text);
        }
        seq![lower(text.take(end))] + segments(text.skip(end + 2))
    }
}

/// What the name of every overriding variable starts with.
pub open spec fn override_prefix() -> Seq<char> {
    "R2S_CONFIG__"@
}

/// The path of the field that a variable of this name overrides, if it is the
/// name of such a variable: the keys of the section and of the field, and those
/// of the tables between them.
pub open spec fn override_path(name: Seq<char>) -> Option<Seq<Seq<char>>> {
    let path = segments(name.skip(override_prefix().len() as int));
    if override_prefix().is_prefix_of(name) && path.len() >= 2 && forall|i: int|
        0 <= i < path.len() ==> (#[trigger] path[i]).len() > 0 {
        Some(path)
    } else {
        None
    }
}

/// A character with an ASCII letter in lower case.
fn lower_character(character: char) -> (result: char)
    ensures
        result == lowered(character),
{
    if 'A' <= character && character <= 'Z' {
        ((character as u8) + 32) as char
    } else {
        character
    }
}

/// The characters of a text.
fn characters_of(text: &str) -> (result: Vec<char>)
    ensures
        result@ == text@,
{
    let mut characters = text.chars();
    let mut result: Vec<char> = Vec::new();
    loop
        invariant
            result@.len() <= text@.len(),
            result@ == text@.take(result@.len() as int),
            vstd::std_specs::iter::IteratorSpec::remaining(&characters) == text@.skip(
                result@.len() as int,
            ),
        decreases text@.len() - result@.len(),
    {
        match characters.next() {
            None => {
                assert(result@ =~= text@);
                return result;
            },
            Some(character) => {
                let ghost before = result@;
                assert(character == text@[before.len() as int]);
                result.push(character);
                assert(result@ =~= text@.take(before.len() as int + 1));
            },
        }
    }
}

/// Passing over a character that no separator starts at.
proof fn lemma_no_separator(text: Seq<char>, start: int, at: int)
    requires
        0 <= start <= at < text.len(),
        !(text[at] == '_' && at + 1 < text.len() && text[at + 1] == '_'),
    ensures
        separator_at(text.skip(at)) == 1 + separator_at(text.skip(at + 1)),
{
    let rest = text.skip(at);
    assert(rest.skip(1) =~= text.skip(at + 1));
}

/// The parts of a text between its double underscores, in lower case.
pub fn split_segments(text: &str) -> (path: Vec<String>)
    ensures
        text::texts(path@) == segments(text@),
{
    let characters = characters_of(text);
    let ghost all = characters@;
    let mut path: Vec<String> = Vec::new();
    let mut start: usize = 0;
    assert(all.skip(0) =~= all);
    assert(text::texts(path@) + segments(all) =~= segments(all));
    loop
        invariant_except_break
            text::texts(path@) + segments(all.skip(start as int)) == segments(all),
        invariant
            all == characters@,
            start <= all.len(),
        ensures
            text::texts(path@) == segments(all),
        decreases all.len() + 2 - start,
    {
        let ghost before = text::texts(path@);
        let ghost rest = all.skip(start as int);
        let mut part = String::new();
        let mut end: usize = start;
        while end < characters.len() && !(characters[end] == '_' && end + 1 < characters.len()
            && characters[end + 1] == '_')
            invariant
                all == characters@,
                start <= end <= all.len(),
                part@ == lower(all.subrange(start as int, end as int)),
                separator_at(all.skip(start as int)) == end - start + separator_at(
                    all.skip(end as int),
                ),
            decreases all.len() - end,
        {
            proof {
                lemma_no_separator(all, start as int, end as int);
            }
            part.push(lower_character(characters[end]));
            end = end + 1;
            assert(part@ =~= lower(all.subrange(start as int, end as int)));
        }
        let ghost added = part@;
        path.push(part);
        assert(text::texts(path@) =~= before + seq![added]);
        if end >= characters.len() {
            proof {
                assert(all.subrange(start as int, end as int) =~= rest);
                assert(separator_at(rest) == rest.len());
            }
            break;
        }
        proof {
            let left = all.skip(end as int);
            assert(left[0] == '_' && left[1] == '_');
            assert(separator_at(rest) == end - start);
            assert(rest.take(end - start) =~= all.subrange(start as int, end as int));
            assert(rest.skip(end - start + 2) =~= all.skip(end + 2));
            assert(before + (seq![added] + segments(all.skip(end + 2))) =~= before + seq![added]
                + segments(all.skip(end + 2)));
        }
        start = end + 2;
    }
    path
}

/// The path of the field that a variable of this name overrides.
pub fn overridden_path(name: &str) -> (result: Option<Vec<String>>)
    ensures
        match result {
            Some(path) => override_path(name@) == Some(text::texts(path@)),
            None => override_path(name@) is None,
        },
{
    if !starts_with(name, "R2S_CONFIG__") {
        return None;
    }
    proof {
        reveal_strlit("R2S_CONFIG__");
        let prefix = override_prefix();
        assert(name@ =~= prefix + name@.skip(prefix.len() as int));
        text::lemma_cut_after(prefix, name@.skip(prefix.len() as int));
        is_ascii_chars_encode_utf8(prefix);
    }
    let path = split_segments(cut(name, 12).1);
    let ghost views = text::texts(path@);
    if path.len() < 2 {
        return None;
    }
    let mut index: usize = 0;
    while index < path.len()
        invariant
            index <= path@.len(),
            views == text::texts(path@),
            views == segments(name@.skip(override_prefix().len() as int)),
            forall|i: int| 0 <= i < index ==> (#[trigger] views[i]).len() > 0,
        decreases path@.len() - index,
    {
        if path[index].as_str().is_empty() {
            assert(views[index as int].len() == 0);
            return None;
        }
        index = index + 1;
    }
    Some(path)
}

/// How many of the first entries of a table have keys that precede the key: in
/// a table in key order, where the key stands or would stand.
pub open spec fn place_of(entries: Seq<(Seq<char>, ValueView)>, key: Seq<char>) -> int
    decreases entries.len(),
{
    if entries.len() == 0 || !text::precedes(entries[0].0, key) {
        0
    } else {
        1 + place_of(entries.skip(1), key)
    }
}

/// A table with a value put in under a key, in place of what stood there.
pub open spec fn with_entry(
    entries: Seq<(Seq<char>, ValueView)>,
    key: Seq<char>,
    value: ValueView,
) -> Seq<(Seq<char>, ValueView)> {
    let place = place_of(entries, key);
    if place < entries.len() && entries[place].0 == key {
        entries.update(place, (key, value))
    } else {
        entries.insert(place, (key, value))
    }
}

/// What stands in a table under a key.
pub open spec fn entry_at(entries: Seq<(Seq<char>, ValueView)>, key: Seq<char>) -> Option<
    ValueView,
> {
    let place = place_of(entries, key);
    if place < entries.len() && entries[place].0 == key {
        Some(entries[place].1)
    } else {
        None
    }
}

/// The TOML value that the text of a variable stands for, if it stands for one,
/// else the text.
pub open spec fn value_or_text(name: Seq<char>, text: Seq<char>) -> ValueView {
    match env::value_in(name, text) {
        Ok(value) => value,
        Err(_) => ValueView::Text(text),
    }
}

/// What a variable puts in place of a value, by what stood there. A text, or a
/// field that was left out, becomes the text of the variable. Any other value
/// becomes the TOML value that this text stands for, if it stands for one, else
/// the text.
pub open spec fn fitted(former: Option<ValueView>, name: Seq<char>, text: Seq<char>) -> ValueView {
    match former {
        None => ValueView::Text(text),
        Some(ValueView::Text(_)) => ValueView::Text(text),
        Some(_) => value_or_text(name, text),
    }
}

/// What a variable puts in place of a value, by the kind of the field: the text
/// of the variable in a text field, in any other the TOML value that this text
/// stands for, if it stands for one. Where the kind is open, what stood there
/// decides.
pub open spec fn fitted_as(
    kind: FieldKind,
    former: Option<ValueView>,
    name: Seq<char>,
    text: Seq<char>,
) -> ValueView {
    match kind {
        FieldKind::Text => ValueView::Text(text),
        FieldKind::Value => value_or_text(name, text),
        FieldKind::Open => fitted(former, name, text),
    }
}

/// The entries of a value that is a table; else none.
pub open spec fn entries_of(value: Option<ValueView>) -> Seq<(Seq<char>, ValueView)> {
    match value {
        Some(ValueView::Table(entries)) => entries,
        _ => Seq::empty(),
    }
}

/// A table with what a variable holds put in at a path, for a field of a given
/// kind. Tables on the way that are left out are added, in place of what is no
/// table.
pub open spec fn put_as(
    kind: FieldKind,
    entries: Seq<(Seq<char>, ValueView)>,
    path: Seq<Seq<char>>,
    name: Seq<char>,
    text: Seq<char>,
) -> Seq<(Seq<char>, ValueView)>
    decreases path.len(),
{
    if path.len() == 0 {
        entries
    } else {
        let former = entry_at(entries, path[0]);
        let value = if path.len() == 1 {
            fitted_as(kind, former, name, text)
        } else {
            ValueView::Table(put_as(kind, entries_of(former), path.skip(1), name, text))
        };
        with_entry(entries, path[0], value)
    }
}

/// The root table with what a variable holds put in at a path.
pub open spec fn put(
    entries: Seq<(Seq<char>, ValueView)>,
    path: Seq<Seq<char>>,
    name: Seq<char>,
    text: Seq<char>,
) -> Seq<(Seq<char>, ValueView)> {
    put_as(fields::kind_at(path), entries, path, name, text)
}

/// The place of a key: what stands before it precedes it, and what stands there
/// does not.
pub proof fn lemma_place_of(entries: Seq<(Seq<char>, ValueView)>, key: Seq<char>)
    ensures
        0 <= place_of(entries, key) <= entries.len(),
        forall|i: int|
            0 <= i < place_of(entries, key) ==> text::precedes((#[trigger] entries[i]).0, key),
        place_of(entries, key) < entries.len() ==> !text::precedes(
            entries[place_of(entries, key)].0,
            key,
        ),
    decreases entries.len(),
{
    if entries.len() > 0 && text::precedes(entries[0].0, key) {
        let rest = entries.skip(1);
        lemma_place_of(rest, key);
        assert forall|i: int| 0 <= i < place_of(entries, key) implies text::precedes(
            (#[trigger] entries[i]).0,
            key,
        ) by {
            if i > 0 {
                assert(rest[i - 1] == entries[i]);
            }
        }
    }
}

/// Putting a well-formed value in keeps a table well-formed.
pub proof fn lemma_with_entry_well_formed(
    entries: Seq<(Seq<char>, ValueView)>,
    key: Seq<char>,
    value: ValueView,
)
    requires
        ValueView::Table(entries).well_formed(),
        value.well_formed(),
    ensures
        ValueView::Table(with_entry(entries, key, value)).well_formed(),
{
    let place = place_of(entries, key);
    let after = with_entry(entries, key, value);
    lemma_place_of(entries, key);
    if place < entries.len() && entries[place].0 == key {
        assert forall|i: int, j: int|
            #![trigger after[i], after[j]]
            0 <= i < j < after.len() implies text::precedes(after[i].0, after[j].0) by {
            assert(after[i].0 == entries[i].0 && after[j].0 == entries[j].0);
        }
        assert forall|i: int| 0 <= i < after.len() implies (#[trigger] after[i]).1.well_formed() by {
            if i != place {
                assert(after[i] == entries[i]);
            }
        }
    } else {
        assert forall|i: int, j: int|
            #![trigger after[i], after[j]]
            0 <= i < j < after.len() implies text::precedes(after[i].0, after[j].0) by {
            if i == place {
                assert(after[j] == entries[j - 1]);
                names::lemma_precedes_total(entries[place].0, key);
                if j - 1 > place {
                    names::lemma_precedes_transitive(key, entries[place].0, entries[j - 1].0);
                }
            } else if j == place {
                assert(after[i] == entries[i]);
            } else {
                let left = if i < place {
                    i
                } else {
                    i - 1
                };
                let right = if j < place {
                    j
                } else {
                    j - 1
                };
                assert(after[i] == entries[left] && after[j] == entries[right]);
            }
        }
        assert forall|i: int| 0 <= i < after.len() implies (#[trigger] after[i]).1.well_formed() by {
            if i < place {
                assert(after[i] == entries[i]);
            } else if i > place {
                assert(after[i] == entries[i - 1]);
            }
        }
    }
}

/// The place of a key in a table.
fn find_place(table: &ConfigTable, key: &str) -> (place: usize)
    ensures
        place == place_of(table@, key@),
        place <= table.entries@.len(),
{
    let ghost entries = table@;
    let mut place: usize = 0;
    assert(entries.skip(0) =~= entries);
    while place < table.entries.len() && is_before(table.entries[place].0.as_str(), key)
        invariant
            entries == table@,
            place <= entries.len(),
            place_of(entries, key@) == place + place_of(entries.skip(place as int), key@),
        decreases entries.len() - place,
    {
        proof {
            assert(entries[place as int].0 == table.entries@[place as int].0@);
            assert(entries.skip(place as int).skip(1) =~= entries.skip(place + 1));
        }
        place = place + 1;
    }
    proof {
        if place < entries.len() {
            assert(entries[place as int].0 == table.entries@[place as int].0@);
        }
    }
    place
}

/// What a value holds, if there is one.
pub open spec fn view_of(value: Option<ConfigValue>) -> Option<ValueView> {
    match value {
        Some(value) => Some(value@),
        None => None,
    }
}

/// The TOML value that the text of a variable stands for, or the text.
fn read_or_keep(name: &str, text: &str) -> (value: ConfigValue)
    ensures
        value@ == value_or_text(name@, text@),
        value@.well_formed(),
{
    match parse_toml_value(name, text) {
        Ok(value) => value,
        Err(_) => ConfigValue::Text(text.to_owned()),
    }
}

/// What a variable puts in place of a value, by what stood there.
pub fn fit(former: &Option<ConfigValue>, name: &str, text: &str) -> (value: ConfigValue)
    ensures
        value@ == fitted(view_of(*former), name@, text@),
        value@.well_formed(),
{
    match former {
        None => ConfigValue::Text(text.to_owned()),
        Some(ConfigValue::Text(_)) => ConfigValue::Text(text.to_owned()),
        Some(_) => read_or_keep(name, text),
    }
}

/// What a variable puts in place of a value, by the kind of the field.
pub fn fit_as(kind: FieldKind, former: &Option<ConfigValue>, name: &str, text: &str) -> (value:
    ConfigValue)
    ensures
        value@ == fitted_as(kind, view_of(*former), name@, text@),
        value@.well_formed(),
{
    match kind {
        FieldKind::Text => ConfigValue::Text(text.to_owned()),
        FieldKind::Value => read_or_keep(name, text),
        FieldKind::Open => fit(former, name, text),
    }
}

/// Puts what a variable holds into a table, at a path from its key number
/// `depth` on.
fn put_from(
    kind: FieldKind,
    table: ConfigTable,
    path: &Vec<String>,
    depth: usize,
    name: &str,
    text: &str,
) -> (after: ConfigTable)
    requires
        depth < path@.len(),
    ensures
        after@ == put_as(kind, table@, text::texts(path@).skip(depth as int), name@, text@),
        ValueView::Table(table@).well_formed() ==> ValueView::Table(after@).well_formed(),
    decreases path@.len() - depth,
{
    let ghost entries = table@;
    let ghost left = text::texts(path@).skip(depth as int);
    let ghost key = path@[depth as int]@;
    let place = find_place(&table, path[depth].as_str());
    let mut rows = table.entries;
    let mut former: Option<ConfigValue> = None;
    proof {
        lemma_place_of(entries, key);
        assert(left[0] == key);
        assert(left.skip(1) =~= text::texts(path@).skip(depth + 1));
        if place < entries.len() {
            assert(entries[place as int] == (rows@[place as int].0@, rows@[place as int].1@));
        }
    }
    if place < rows.len() && same(rows[place].0.as_str(), path[depth].as_str()) {
        former = Some(rows.remove(place).1);
    }
    let ghost view = view_of(former);
    assert(view == entry_at(entries, key));
    let value = if depth == path.len() - 1 {
        fit_as(kind, &former, name, text)
    } else {
        let inner = match former {
            Some(ConfigValue::Table(inner)) => inner,
            _ => ConfigTable { entries: Vec::new() },
        };
        proof {
            assert(inner@ =~= entries_of(view));
        }
        ConfigValue::Table(put_from(kind, inner, path, depth + 1, name, text))
    };
    let ghost put_in = value@;
    rows.insert(place, (path[depth].clone(), value));
    let after = ConfigTable { entries: rows };
    proof {
        assert(after@ =~= with_entry(entries, key, put_in));
        if ValueView::Table(entries).well_formed() {
            lemma_with_entry_well_formed(entries, key, put_in);
        }
    }
    after
}

/// Puts what a variable holds into the root table, at a path.
pub fn put_field(table: ConfigTable, path: &Vec<String>, name: &str, text: &str) -> (after:
    ConfigTable)
    ensures
        after@ == put(table@, text::texts(path@), name@, text@),
        ValueView::Table(table@).well_formed() ==> ValueView::Table(after@).well_formed(),
{
    if path.len() == 0 {
        return table;
    }
    proof {
        assert(text::texts(path@).skip(0) =~= text::texts(path@));
    }
    put_from(field_kind(path), table, path, 0, name, text)
}

/// The names of the variables that override fields.
pub open spec fn override_names(holdings: Holdings) -> Set<Seq<char>> {
    holdings.dom().filter(|name: Seq<char>| override_path(name) is Some)
}

/// A table with what the named variables hold put in, one after another.
pub open spec fn overridden(
    entries: Seq<(Seq<char>, ValueView)>,
    names: Seq<Seq<char>>,
    holdings: Holdings,
) -> Result<Seq<(Seq<char>, ValueView)>, ResolveErrorView>
    decreases names.len(),
{
    if names.len() == 0 {
        Ok(entries)
    } else {
        let name = names.last();
        match overridden(entries, names.drop_last(), holdings) {
            Err(error) => Err(error),
            Ok(before) => match env::lookup(holdings, name) {
                Err(error) => Err(error),
                Ok(text) => Ok(put(before, override_path(name)->0, name, text)),
            },
        }
    }
}

/// The members of a set in increasing order.
pub open spec fn listing(set: Set<Seq<char>>) -> Seq<Seq<char>> {
    choose|list: Seq<Seq<char>>| names::lists(list, set)
}

/// A table with every overriding variable put in, in the order of their names.
pub open spec fn all_overridden(
    entries: Seq<(Seq<char>, ValueView)>,
    holdings: Holdings,
) -> Result<Seq<(Seq<char>, ValueView)>, ResolveErrorView> {
    overridden(entries, listing(override_names(holdings)), holdings)
}

/// After an error no more variables are put in.
proof fn lemma_overridden_stops(
    entries: Seq<(Seq<char>, ValueView)>,
    names: Seq<Seq<char>>,
    count: int,
    holdings: Holdings,
)
    requires
        0 <= count <= names.len(),
        overridden(entries, names.take(count), holdings) is Err,
    ensures
        overridden(entries, names, holdings) == overridden(entries, names.take(count), holdings),
    decreases names.len(),
{
    if count < names.len() {
        assert(names.drop_last().take(count) =~= names.take(count));
        lemma_overridden_stops(entries, names.drop_last(), count, holdings);
    } else {
        assert(names.take(count) =~= names);
    }
}

/// The names of the variables that override fields, in increasing order.
pub fn overriding_names(variables: &Environment) -> (result: Vec<String>)
    ensures
        text::texts(result@) == listing(override_names(variables@)),
        names::lists(text::texts(result@), override_names(variables@)),
{
    let all = variables.names().into_names();
    let ghost views = text::texts(all@);
    let ghost wanted = |name: Seq<char>| override_path(name) is Some;
    let mut found = NameSet::new();
    let mut index: usize = 0;
    assert(views.take(0).to_set().filter(wanted) =~= Set::<Seq<char>>::empty());
    while index < all.len()
        invariant
            views == text::texts(all@),
            wanted == (|name: Seq<char>| override_path(name) is Some),
            index <= all@.len(),
            found.well_formed(),
            found@ == views.take(index as int).to_set().filter(wanted),
        decreases all@.len() - index,
    {
        let ghost before = views.take(index as int);
        let ghost name = views[index as int];
        proof {
            assert(views.take(index + 1) =~= before.insert(before.len() as int, name));
            names::lemma_insert_members(before, before.len() as int, name);
        }
        if overridden_path(all[index].as_str()).is_some() {
            found.insert(all[index].clone());
            assert(found@ =~= before.to_set().insert(name).filter(wanted));
        } else {
            assert(found@ =~= before.to_set().insert(name).filter(wanted));
        }
        index = index + 1;
    }
    proof {
        assert(views.take(index as int) =~= views);
        assert(found@ =~= override_names(variables@));
    }
    let result = found.into_names();
    proof {
        names::law_listing_is_unique(
            text::texts(result@),
            listing(override_names(variables@)),
            override_names(variables@),
        );
    }
    result
}

/// Puts every overriding variable into a table, and lists their names together
/// with `names`.
pub fn override_fields(table: ConfigTable, names: Vec<String>, variables: &Environment) -> (result:
    Result<(ConfigTable, Vec<String>), ResolveError>)
    ensures
        match result {
            Ok((after, all)) => {
                &&& all_overridden(table@, variables@) == Ok::<
                    Seq<(Seq<char>, ValueView)>,
                    ResolveErrorView,
                >(after@)
                &&& ValueView::Table(table@).well_formed() ==> ValueView::Table(
                    after@,
                ).well_formed()
                &&& names::lists(
                    text::texts(all@),
                    text::texts(names@).to_set().union(override_names(variables@)),
                )
            },
            Err(error) => all_overridden(table@, variables@) == Err::<
                Seq<(Seq<char>, ValueView)>,
                ResolveErrorView,
            >(error@),
        },
{
    let overriding = overriding_names(variables);
    let ghost entries = table@;
    let ghost listed = text::texts(overriding@);
    let mut after = table;
    let mut index: usize = 0;
    assert(listed.take(0) =~= Seq::empty());
    while index < overriding.len()
        invariant
            listed == text::texts(overriding@),
            listed.to_set() == override_names(variables@),
            index <= overriding@.len(),
            overridden(entries, listed.take(index as int), variables@) == Ok::<
                Seq<(Seq<char>, ValueView)>,
                ResolveErrorView,
            >(after@),
            ValueView::Table(entries).well_formed() ==> ValueView::Table(after@).well_formed(),
            listed == listing(override_names(variables@)),
            entries == table@,
        decreases overriding@.len() - index,
    {
        let ghost soon = listed.take(index + 1);
        let name = overriding[index].as_str();
        proof {
            assert(soon.drop_last() =~= listed.take(index as int));
            assert(soon.last() == name@);
            assert(listed[index as int] == name@);
            assert(listed.to_set().contains(name@));
        }
        let held = match variable(variables, name) {
            Ok(held) => held,
            Err(error) => {
                proof {
                    lemma_overridden_stops(entries, listed, index + 1, variables@);
                }
                return Err(error);
            },
        };
        if let Some(path) = overridden_path(name) {
            after = put_field(after, &path, name, held);
        }
        index = index + 1;
    }
    assert(listed.take(index as int) =~= listed);
    let mut all = NameSet::new();
    let ghost given = text::texts(names@);
    all.insert_all(&names);
    all.insert_all(&overriding);
    assert(all@ =~= given.to_set().union(override_names(variables@)));
    Ok((after, all.into_names()))
}

/// What a document says of the configuration with given variables: the root
/// table with every placeholder replaced and every overriding variable put in,
/// and the names of all these variables.
pub open spec fn configured(document: Seq<char>, holdings: Holdings) -> Result<
    (ValueView, Set<Seq<char>>),
    ResolveErrorView,
> {
    match env::resolution(document, holdings) {
        Err(error) => Err(error),
        Ok((root, referenced)) => {
            let used = referenced.union(override_names(holdings));
            match root {
                ValueView::Table(entries) => match all_overridden(entries, holdings) {
                    Err(error) => Err(error),
                    Ok(after) => Ok((ValueView::Table(after), used)),
                },
                _ => Ok((root, used)),
            }
        },
    }
}

/// Resolves the placeholders of a document, puts the overriding variables in,
/// and lists all the variables.
pub fn configure(document: &str, variables: Vec<env::Variable>) -> (result: Result<
    (ConfigTable, Vec<String>),
    ResolveError,
>)
    ensures
        match result {
            Ok((table, names)) => {
                &&& configured(document@, env::holdings_of(variables@)) matches Ok((root, used))
                &&& root == ValueView::Table(table@)
                &&& root.well_formed()
                &&& names::lists(text::texts(names@), used)
            },
            Err(error) => configured(document@, env::holdings_of(variables@)) == Err::<
                (ValueView, Set<Seq<char>>),
                ResolveErrorView,
            >(error@),
        },
{
    let variables = Environment::new(variables);
    match resolve_document(document, &variables) {
        Ok((table, names)) => override_fields(table, names, &variables),
        Err(error) => Err(error),
    }
}

} // verus!
