//! What overriding promises of every configuration and environment.
use vstd::prelude::*;

use crate::document::ValueView;
use crate::env::{self, Holdings, ResolveErrorView};
use crate::fields::{self, FieldKind};
use crate::{env_laws, names, overrides, text};

verus! {

/// What stands in a table at a path.
pub open spec fn value_at(entries: Seq<(Seq<char>, ValueView)>, path: Seq<Seq<char>>) -> Option<
    ValueView,
>
    decreases path.len(),
{
    if path.len() == 0 {
        None
    } else if path.len() == 1 {
        overrides::entry_at(entries, path[0])
    } else {
        match overrides::entry_at(entries, path[0]) {
            Some(ValueView::Table(inner)) => value_at(inner, path.skip(1)),
            _ => None,
        }
    }
}

/// The paths part: neither leads through the other.
pub open spec fn apart(path: Seq<Seq<char>>, other: Seq<Seq<char>>) -> bool
    decreases path.len(),
{
    path.len() > 0 && other.len() > 0 && (path[0] != other[0] || apart(path.skip(1), other.skip(1)))
}

/// The name of a section and that of a field, as they are in the name of a
/// variable: not empty, without double underscores, and a section without one
/// at its end, which would join those that follow.
pub open spec fn are_plain(section: Seq<char>, field: Seq<char>) -> bool {
    &&& section.len() > 0 && field.len() > 0
    &&& overrides::separator_at(section) == section.len()
    &&& overrides::separator_at(field) == field.len()
    &&& section.last() != '_'
}

/// The variable `R2S_CONFIG__SECTION__FIELD` overrides the field of that section,
/// both in lower case.
pub proof fn law_names_lead_to_fields(section: Seq<char>, field: Seq<char>)
    requires
        are_plain(section, field),
    ensures
        overrides::override_path(
            overrides::override_prefix() + section + seq!['_', '_'] + field,
        ) == Some(seq![overrides::lower(section), overrides::lower(field)]),
{
    let prefix = overrides::override_prefix();
    let name = prefix + section + seq!['_', '_'] + field;
    let rest = section + seq!['_', '_'] + field;
    let end = section.len() as int;
    assert(name.skip(prefix.len() as int) =~= rest);
    assert(prefix =~= name.take(prefix.len() as int));
    lemma_separator_between(section, field);
    assert(rest.take(end) =~= section);
    assert(rest.skip(end + 2) =~= field);
    let path = seq![overrides::lower(section), overrides::lower(field)];
    assert(overrides::segments(field) =~= seq![overrides::lower(field)]);
    assert(overrides::segments(rest) =~= path);
    assert(forall|i: int| 0 <= i < path.len() ==> (#[trigger] path[i]).len() > 0);
}

proof fn lemma_separator_between(section: Seq<char>, field: Seq<char>)
    requires
        section.len() > 0,
        overrides::separator_at(section) == section.len(),
        section.last() != '_',
    ensures
        overrides::separator_at(section + seq!['_', '_'] + field) == section.len(),
    decreases section.len(),
{
    let rest = section + seq!['_', '_'] + field;
    assert(rest.skip(1) =~= section.skip(1) + seq!['_', '_'] + field);
    if section.len() == 1 {
        let after = rest.skip(1);
        assert(after[0] == '_' && after[1] == '_');
        assert(overrides::separator_at(after) == 0);
    } else {
        assert(rest[0] == section[0] && rest[1] == section[1]);
        assert(section.skip(1).last() == section.last());
        overrides::lemma_separator_at(section.skip(1));
        lemma_separator_between(section.skip(1), field);
    }
}

/// A key has its place where it stands.
proof fn lemma_place_found(entries: Seq<(Seq<char>, ValueView)>, key: Seq<char>, place: int)
    requires
        0 <= place <= entries.len(),
        forall|i: int| 0 <= i < place ==> text::precedes((#[trigger] entries[i]).0, key),
        place < entries.len() ==> !text::precedes(entries[place].0, key),
    ensures
        overrides::place_of(entries, key) == place,
{
    let found = overrides::place_of(entries, key);
    overrides::lemma_place_of(entries, key);
    if found < place {
        assert(text::precedes(entries[found].0, key));
    }
    if place < found {
        assert(text::precedes(entries[place].0, key));
    }
}

/// An entry that is put in is found, and the others stay.
proof fn lemma_with_entry(
    entries: Seq<(Seq<char>, ValueView)>,
    key: Seq<char>,
    value: ValueView,
    other: Seq<char>,
)
    requires
        ValueView::Table(entries).well_formed(),
    ensures
        overrides::entry_at(overrides::with_entry(entries, key, value), key) == Some(value),
        other != key ==> overrides::entry_at(overrides::with_entry(entries, key, value), other)
            == overrides::entry_at(entries, other),
{
    let place = overrides::place_of(entries, key);
    let after = overrides::with_entry(entries, key, value);
    overrides::lemma_place_of(entries, key);
    names::lemma_precedes_irreflexive(key);
    assert forall|i: int| 0 <= i < place implies text::precedes((#[trigger] after[i]).0, key) by {
        assert(after[i] == entries[i]);
    }
    lemma_place_found(after, key, place);
    if other != key {
        let aside = overrides::place_of(entries, other);
        overrides::lemma_place_of(entries, other);
        if place < entries.len() && entries[place].0 == key {
            assert forall|i: int| 0 <= i < aside implies text::precedes(
                (#[trigger] after[i]).0,
                other,
            ) by {
                assert(after[i].0 == entries[i].0);
            }
            lemma_place_found(after, other, aside);
        } else {
            lemma_inserted_beside(entries, key, value, other);
        }
    }
}

/// An entry that is added leaves the others as they are.
proof fn lemma_inserted_beside(
    entries: Seq<(Seq<char>, ValueView)>,
    key: Seq<char>,
    value: ValueView,
    other: Seq<char>,
)
    requires
        ValueView::Table(entries).well_formed(),
        other != key,
        ({
            let place = overrides::place_of(entries, key);
            place < entries.len() ==> entries[place].0 != key
        }),
    ensures
        overrides::entry_at(
            entries.insert(overrides::place_of(entries, key), (key, value)),
            other,
        ) == overrides::entry_at(entries, other),
{
    let place = overrides::place_of(entries, key);
    let aside = overrides::place_of(entries, other);
    overrides::lemma_place_of(entries, key);
    overrides::lemma_place_of(entries, other);
    let after = entries.insert(place, (key, value));
    names::lemma_precedes_total(key, other);
    if text::precedes(key, other) {
        assert(place <= aside) by {
            if aside < place {
                assert(text::precedes(entries[aside].0, key));
                names::lemma_precedes_transitive(entries[aside].0, key, other);
            }
        }
        assert forall|i: int| 0 <= i < aside + 1 implies text::precedes(
            (#[trigger] after[i]).0,
            other,
        ) by {
            if i < place {
                assert(after[i] == entries[i]);
            } else if i > place {
                assert(after[i] == entries[i - 1]);
            }
        }
        if aside < entries.len() {
            assert(after[aside + 1] == entries[aside]);
        }
        lemma_place_found(after, other, aside + 1);
    } else {
        assert(aside <= place) by {
            if place < aside {
                assert(text::precedes(entries[place].0, other));
                names::lemma_precedes_transitive(entries[place].0, other, key);
            }
        }
        assert forall|i: int| 0 <= i < aside implies text::precedes(
            (#[trigger] after[i]).0,
            other,
        ) by {
            assert(after[i] == entries[i]);
        }
        names::lemma_precedes_irreflexive(key);
        if text::precedes(key, other) {
            names::lemma_precedes_transitive(key, other, key);
        }
        if aside < place {
            assert(after[aside] == entries[aside]);
        }
        lemma_place_found(after, other, aside);
        if aside == place && place < entries.len() && entries[place].0 == other {
            assert(!text::precedes(entries[place].0, key));
        }
    }
}

/// What is in a well-formed table is well-formed.
proof fn lemma_inner_well_formed(entries: Seq<(Seq<char>, ValueView)>, key: Seq<char>)
    requires
        ValueView::Table(entries).well_formed(),
    ensures
        ValueView::Table(
            overrides::entries_of(overrides::entry_at(entries, key)),
        ).well_formed(),
{
    overrides::lemma_place_of(entries, key);
}

/// What is put in at a path is what stands there then: the text of the variable,
/// or the value that it stands for, as the field asks.
pub proof fn law_override_is_read_back(
    entries: Seq<(Seq<char>, ValueView)>,
    path: Seq<Seq<char>>,
    name: Seq<char>,
    text: Seq<char>,
)
    requires
        ValueView::Table(entries).well_formed(),
        path.len() > 0,
    ensures
        value_at(overrides::put(entries, path, name, text), path) == Some(
            overrides::fitted_as(fields::kind_at(path), value_at(entries, path), name, text),
        ),
{
    lemma_read_back(fields::kind_at(path), entries, path, name, text);
}

proof fn lemma_read_back(
    kind: FieldKind,
    entries: Seq<(Seq<char>, ValueView)>,
    path: Seq<Seq<char>>,
    name: Seq<char>,
    text: Seq<char>,
)
    requires
        ValueView::Table(entries).well_formed(),
        path.len() > 0,
    ensures
        value_at(overrides::put_as(kind, entries, path, name, text), path) == Some(
            overrides::fitted_as(kind, value_at(entries, path), name, text),
        ),
    decreases path.len(),
{
    let former = overrides::entry_at(entries, path[0]);
    if path.len() == 1 {
        let value = overrides::fitted_as(kind, former, name, text);
        lemma_with_entry(entries, path[0], value, path[0]);
    } else {
        let inner = overrides::entries_of(former);
        let value = ValueView::Table(overrides::put_as(kind, inner, path.skip(1), name, text));
        lemma_with_entry(entries, path[0], value, path[0]);
        lemma_inner_well_formed(entries, path[0]);
        lemma_read_back(kind, inner, path.skip(1), name, text);
        if !(former matches Some(ValueView::Table(_))) {
            lemma_nothing_in_empty(path.skip(1));
        }
    }
}

/// A field of the `auth`, `captcha` and `server` sections that takes no text is
/// set by its variable, whether the document leaves it out or not: it becomes
/// the TOML value that the variable stands for. A text field of these becomes the
/// text of the variable.
pub proof fn law_known_fields_can_be_set(
    entries: Seq<(Seq<char>, ValueView)>,
    path: Seq<Seq<char>>,
    name: Seq<char>,
    text: Seq<char>,
)
    requires
        ValueView::Table(entries).well_formed(),
    ensures
        fields::kind_at(path) == FieldKind::Text ==> value_at(
            overrides::put(entries, path, name, text),
            path,
        ) == Some(ValueView::Text(text)),
        fields::kind_at(path) == FieldKind::Value ==> (env::value_in(name, text) matches Ok(value)
            ==> value_at(overrides::put(entries, path, name, text), path) == Some(value)),
{
    if path.len() > 0 {
        law_override_is_read_back(entries, path, name, text);
    }
}

/// Nothing stands in an empty table.
proof fn lemma_nothing_in_empty(path: Seq<Seq<char>>)
    ensures
        value_at(Seq::empty(), path) is None,
{
}

/// What stands at other paths stays as it was.
pub proof fn law_other_fields_stay(
    entries: Seq<(Seq<char>, ValueView)>,
    path: Seq<Seq<char>>,
    name: Seq<char>,
    text: Seq<char>,
    other: Seq<Seq<char>>,
)
    requires
        ValueView::Table(entries).well_formed(),
        apart(path, other),
    ensures
        value_at(overrides::put(entries, path, name, text), other) == value_at(entries, other),
{
    lemma_others_stay(fields::kind_at(path), entries, path, name, text, other);
}

proof fn lemma_others_stay(
    kind: FieldKind,
    entries: Seq<(Seq<char>, ValueView)>,
    path: Seq<Seq<char>>,
    name: Seq<char>,
    text: Seq<char>,
    other: Seq<Seq<char>>,
)
    requires
        ValueView::Table(entries).well_formed(),
        apart(path, other),
    ensures
        value_at(overrides::put_as(kind, entries, path, name, text), other) == value_at(
            entries,
            other,
        ),
    decreases path.len(),
{
    let former = overrides::entry_at(entries, path[0]);
    let value = if path.len() == 1 {
        overrides::fitted_as(kind, former, name, text)
    } else {
        ValueView::Table(
            overrides::put_as(kind, overrides::entries_of(former), path.skip(1), name, text),
        )
    };
    lemma_with_entry(entries, path[0], value, other[0]);
    if path[0] == other[0] {
        assert(apart(path.skip(1), other.skip(1)));
        let inner = overrides::entries_of(former);
        lemma_inner_well_formed(entries, path[0]);
        lemma_others_stay(kind, inner, path.skip(1), name, text, other.skip(1));
        if !(former matches Some(ValueView::Table(_))) {
            lemma_nothing_in_empty(other.skip(1));
        }
    }
}

/// Without overriding variables a configuration is what its document resolves
/// to.
pub proof fn law_nothing_to_override(document: Seq<char>, holdings: Holdings)
    requires
        overrides::override_names(holdings) == Set::<Seq<char>>::empty(),
    ensures
        overrides::configured(document, holdings) == env::resolution(document, holdings),
{
    let none = Seq::<Seq<char>>::empty();
    let list = overrides::listing(overrides::override_names(holdings));
    names::lemma_no_members(none);
    assert(names::lists(none, overrides::override_names(holdings)));
    names::lemma_no_members(list);
    if let Ok((root, referenced)) = env::resolution(document, holdings) {
        assert(referenced.union(Set::<Seq<char>>::empty()) =~= referenced);
    }
}

/// The values that the overriding variables stand for are well-formed.
pub open spec fn overrides_well_formed(holdings: Holdings) -> bool {
    forall|name: Seq<char>|
        overrides::override_names(holdings).contains(name) && (#[trigger] env::lookup(
            holdings,
            name,
        )) is Ok ==> stands_for_well_formed(name, env::lookup(holdings, name)->Ok_0)
}

/// The value that a text stands for, if it stands for one, is well-formed.
pub open spec fn stands_for_well_formed(name: Seq<char>, text: Seq<char>) -> bool {
    env::value_in(name, text) matches Ok(value) ==> value.well_formed()
}

/// Putting a variable in keeps a table well-formed.
pub proof fn law_put_well_formed(
    entries: Seq<(Seq<char>, ValueView)>,
    path: Seq<Seq<char>>,
    name: Seq<char>,
    text: Seq<char>,
)
    requires
        ValueView::Table(entries).well_formed(),
        stands_for_well_formed(name, text),
    ensures
        ValueView::Table(overrides::put(entries, path, name, text)).well_formed(),
{
    lemma_put_well_formed(fields::kind_at(path), entries, path, name, text);
}

proof fn lemma_put_well_formed(
    kind: FieldKind,
    entries: Seq<(Seq<char>, ValueView)>,
    path: Seq<Seq<char>>,
    name: Seq<char>,
    text: Seq<char>,
)
    requires
        ValueView::Table(entries).well_formed(),
        stands_for_well_formed(name, text),
    ensures
        ValueView::Table(overrides::put_as(kind, entries, path, name, text)).well_formed(),
    decreases path.len(),
{
    if path.len() == 1 {
        let former = overrides::entry_at(entries, path[0]);
        let value = overrides::fitted_as(kind, former, name, text);
        overrides::lemma_with_entry_well_formed(entries, path[0], value);
    } else if path.len() > 1 {
        let inner = overrides::entries_of(overrides::entry_at(entries, path[0]));
        lemma_inner_well_formed(entries, path[0]);
        lemma_put_well_formed(kind, inner, path.skip(1), name, text);
        let value = ValueView::Table(overrides::put_as(kind, inner, path.skip(1), name, text));
        overrides::lemma_with_entry_well_formed(entries, path[0], value);
    }
}

/// Environment values override the document: where a configuration is put
/// together, each overriding variable is what stands at its path, unless another
/// overriding variable leads through that path too.
pub proof fn law_overrides_win(
    entries: Seq<(Seq<char>, ValueView)>,
    after: Seq<(Seq<char>, ValueView)>,
    holdings: Holdings,
    list: Seq<Seq<char>>,
    name: Seq<char>,
)
    requires
        ValueView::Table(entries).well_formed(),
        overrides_well_formed(holdings),
        names::lists(list, overrides::override_names(holdings)),
        overrides::all_overridden(entries, holdings) == Ok::<
            Seq<(Seq<char>, ValueView)>,
            ResolveErrorView,
        >(after),
        overrides::override_names(holdings).contains(name),
        forall|other: Seq<char>| #[trigger]
            overrides::override_names(holdings).contains(other) && other != name ==> apart(
                overrides::override_path(other)->0,
                overrides::override_path(name)->0,
            ),
    ensures
        ({
            let path = overrides::override_path(name)->0;
            &&& env::lookup(holdings, name) matches Ok(text)
            &&& value_at(after, path) == Some(
                overrides::fitted_as(fields::kind_at(path), value_at(entries, path), name, text),
            )
        }),
{
    let set = overrides::override_names(holdings);
    names::law_listing_is_unique(list, overrides::listing(set), set);
    assert forall|i: int| 0 <= i < list.len() implies set.contains(#[trigger] list[i]) by {
        assert(list.to_set().contains(list[i]));
    }
    assert(list.to_set().contains(name));
    lemma_listed_override(entries, list, holdings, name);
}

/// What stands at the path of a variable after those of a list are put in.
proof fn lemma_listed_override(
    entries: Seq<(Seq<char>, ValueView)>,
    list: Seq<Seq<char>>,
    holdings: Holdings,
    name: Seq<char>,
)
    requires
        ValueView::Table(entries).well_formed(),
        overrides_well_formed(holdings),
        names::increasing(list),
        overrides::override_names(holdings).contains(name),
        forall|i: int|
            0 <= i < list.len() ==> overrides::override_names(holdings).contains(
                #[trigger] list[i],
            ),
        forall|other: Seq<char>| #[trigger]
            overrides::override_names(holdings).contains(other) && other != name ==> apart(
                overrides::override_path(other)->0,
                overrides::override_path(name)->0,
            ),
        overrides::overridden(entries, list, holdings) is Ok,
    ensures
        ({
            let after = overrides::overridden(entries, list, holdings)->Ok_0;
            let path = overrides::override_path(name)->0;
            &&& ValueView::Table(after).well_formed()
            &&& !list.contains(name) ==> value_at(after, path) == value_at(entries, path)
            &&& list.contains(name) ==> env::lookup(holdings, name) is Ok && value_at(after, path)
                == Some(
                overrides::fitted_as(
                    fields::kind_at(path),
                    value_at(entries, path),
                    name,
                    env::lookup(holdings, name)->Ok_0,
                ),
            )
        }),
    decreases list.len(),
{
    if list.len() > 0 {
        let earlier = list.drop_last();
        let last = list.last();
        let text = env::lookup(holdings, last)->Ok_0;
        let path = overrides::override_path(name)->0;
        let own = overrides::override_path(last)->0;
        let before = overrides::overridden(entries, earlier, holdings)->Ok_0;
        assert(list[list.len() - 1] == last);
        assert forall|i: int, j: int|
            #![trigger earlier[i], earlier[j]]
            0 <= i < j < earlier.len() implies text::precedes(earlier[i], earlier[j]) by {
            assert(earlier[i] == list[i] && earlier[j] == list[j]);
        }
        assert forall|i: int| 0 <= i < earlier.len() implies overrides::override_names(
            holdings,
        ).contains(#[trigger] earlier[i]) by {
            assert(earlier[i] == list[i]);
        }
        lemma_listed_override(entries, earlier, holdings, name);
        assert(stands_for_well_formed(last, text));
        law_put_well_formed(before, own, last, text);
        if last == name {
            assert(list.contains(name));
            if earlier.contains(name) {
                let at = choose|at: int| 0 <= at < earlier.len() && earlier[at] == name;
                assert(list[at] == name);
                names::lemma_precedes_irreflexive(name);
            }
            law_override_is_read_back(before, path, name, text);
        } else {
            assert(list.contains(name) == earlier.contains(name)) by {
                if list.contains(name) {
                    let at = choose|at: int| 0 <= at < list.len() && list[at] == name;
                    assert(earlier[at] == name);
                }
                if earlier.contains(name) {
                    let at = choose|at: int| 0 <= at < earlier.len() && earlier[at] == name;
                    assert(list[at] == name);
                }
            }
            law_other_fields_stay(before, own, last, text, path);
        }
    }
}

/// Variables that a document does not mention and that override nothing do not
/// matter.
pub proof fn law_unused_variables_do_not_matter(
    document: Seq<char>,
    first: Holdings,
    second: Holdings,
    list: Seq<Seq<char>>,
)
    requires
        names::lists(list, overrides::override_names(first)),
        forall|name: Seq<char>|
            env_laws::mentions(document, name) || overrides::override_path(name) is Some ==> (
            #[trigger] env::lookup(first, name)) == env::lookup(second, name),
    ensures
        overrides::configured(document, first) == overrides::configured(document, second),
{
    env_laws::law_other_variables_do_not_matter(document, first, second);
    let ours = overrides::override_names(first);
    let theirs = overrides::override_names(second);
    assert forall|name: Seq<char>| ours.contains(name) == theirs.contains(name) by {
        assert(first.contains_key(name) == !(env::lookup(first, name) == Err::<
            Seq<char>,
            ResolveErrorView,
        >(ResolveErrorView::NotFound(name))));
        assert(second.contains_key(name) == !(env::lookup(second, name) == Err::<
            Seq<char>,
            ResolveErrorView,
        >(ResolveErrorView::NotFound(name))));
    }
    assert(ours =~= theirs);
    names::law_listing_is_unique(list, overrides::listing(ours), ours);
    assert forall|i: int| 0 <= i < list.len() implies overrides::override_path(
        #[trigger] list[i],
    ) is Some by {
        assert(list.to_set().contains(list[i]));
    }
    if let Ok((ValueView::Table(entries), _)) = env::resolution(document, first) {
        lemma_overridden_agree(entries, list, first, second);
    }
}

proof fn lemma_overridden_agree(
    entries: Seq<(Seq<char>, ValueView)>,
    list: Seq<Seq<char>>,
    first: Holdings,
    second: Holdings,
)
    requires
        forall|i: int|
            0 <= i < list.len() ==> overrides::override_path(#[trigger] list[i]) is Some,
        forall|name: Seq<char>|
            overrides::override_path(name) is Some ==> (#[trigger] env::lookup(first, name))
                == env::lookup(second, name),
    ensures
        overrides::overridden(entries, list, first) == overrides::overridden(
            entries,
            list,
            second,
        ),
    decreases list.len(),
{
    if list.len() > 0 {
        let earlier = list.drop_last();
        assert(list[list.len() - 1] == list.last());
        assert forall|i: int| 0 <= i < earlier.len() implies overrides::override_path(
            #[trigger] earlier[i],
        ) is Some by {
            assert(earlier[i] == list[i]);
        }
        lemma_overridden_agree(entries, earlier, first, second);
    }
}

} // verus!
