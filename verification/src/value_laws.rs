//! What resolving promises of every value, part by part.
use vstd::prelude::*;

use crate::document::{self, ValueView};
use crate::env::{self, Holdings, Outcome, ResolveErrorView, Stands};
use crate::{mask, reading};

verus! {

/// Numbers, truth values and moments stay as they are.
pub proof fn law_other_values_stay(
    number: i64,
    bits: u64,
    truth: bool,
    moment: toml::value::Datetime,
    holdings: Holdings,
    stands: Stands,
)
    ensures
        env::resolved(ValueView::Integer(number), holdings, stands) == (Outcome {
            value: ValueView::Integer(number),
            names: Set::<Seq<char>>::empty(),
            error: None::<ResolveErrorView>,
        }),
        env::resolved(ValueView::Float(bits), holdings, stands) == (Outcome {
            value: ValueView::Float(bits),
            names: Set::<Seq<char>>::empty(),
            error: None::<ResolveErrorView>,
        }),
        env::resolved(ValueView::Boolean(truth), holdings, stands) == (Outcome {
            value: ValueView::Boolean(truth),
            names: Set::<Seq<char>>::empty(),
            error: None::<ResolveErrorView>,
        }),
        env::resolved(ValueView::Datetime(moment), holdings, stands) == (Outcome {
            value: ValueView::Datetime(moment),
            names: Set::<Seq<char>>::empty(),
            error: None::<ResolveErrorView>,
        }),
{
}

/// A marker becomes the value that it stands for, unchanged, and its variable is
/// put in.
pub proof fn law_markers_become_their_values(
    marker: Seq<char>,
    name: Seq<char>,
    value: ValueView,
    holdings: Holdings,
    stands: Stands,
)
    ensures
        env::resolved(
            ValueView::Text(marker),
            holdings,
            stands.insert(marker, (name, value)),
        ) == (Outcome { value, names: set![name], error: None::<ResolveErrorView> }),
{
}

/// A text that is the placeholder of a variable, and no marker, becomes the text
/// that the variable holds, unchanged, and the variable is put in; one whose
/// variable cannot be looked up stays, with the error of that.
pub proof fn law_quoted_placeholders_become_texts(
    name: Seq<char>,
    holdings: Holdings,
    stands: Stands,
)
    requires
        name.len() > 0 && !('0' <= name[0] <= '9'),
        forall|i: int|
            0 <= i < name.len() ==> name[i] == '_' || 'a' <= name[i] <= 'z' || 'A' <= name[i]
                <= 'Z' || '0' <= #[trigger] name[i] <= '9',
        !stands.contains_key(seq!['$', '{'] + name + seq!['}']),
    ensures
        ({
            let text = seq!['$', '{'] + name + seq!['}'];
            let outcome = env::resolved(ValueView::Text(text), holdings, stands);
            match env::lookup(holdings, name) {
                Ok(held) => outcome == (Outcome {
                    value: ValueView::Text(held),
                    names: set![name],
                    error: None::<ResolveErrorView>,
                }),
                Err(error) => outcome == (Outcome {
                    value: ValueView::Text(text),
                    names: Set::<Seq<char>>::empty(),
                    error: Some(error),
                }),
            }
        }),
{
    let text = seq!['$', '{'] + name + seq!['}'];
    crate::scan_laws::law_names(name);
    crate::mask_laws::law_quoted_placeholder_is_exact(text, name);
}

/// A text that is neither a marker nor a name between `${` and `}` stays as it
/// is.
pub proof fn law_other_texts_stay(text: Seq<char>, holdings: Holdings, stands: Stands)
    requires
        !stands.contains_key(text),
        text.len() < 4 || text[0] != '$' || text[1] != '{' || text.last() != '}' || '0' <= text[2]
            <= '9' || exists|i: int|
            2 <= i < text.len() - 1 && !(text[i] == '_' || 'a' <= text[i] <= 'z' || 'A' <= text[i]
                <= 'Z' || '0' <= #[trigger] text[i] <= '9'),
    ensures
        env::resolved(ValueView::Text(text), holdings, stands) == (Outcome {
            value: ValueView::Text(text),
            names: Set::<Seq<char>>::empty(),
            error: None::<ResolveErrorView>,
        }),
{
    if let Some(name) = mask::quoted_name(text) {
        crate::mask_laws::law_quoted_placeholder_is_exact(text, name);
        crate::scan_laws::law_names(name);
        assert(text[0] == '$' && text[1] == '{' && text.last() == '}');
        assert(text[2] == name[0]);
        let bad = choose|i: int|
            2 <= i < text.len() - 1 && !(text[i] == '_' || 'a' <= text[i] <= 'z' || 'A' <= text[i]
                <= 'Z' || '0' <= #[trigger] text[i] <= '9');
        assert(text[bad] == name[bad - 2]);
    }
}

/// The first `count` items, where none of them has an error.
proof fn lemma_items_alone(items: Seq<ValueView>, count: nat, holdings: Holdings, stands: Stands)
    requires
        count <= items.len(),
        forall|i: int|
            0 <= i < count ==> env::resolved(#[trigger] items[i], holdings, stands).error is None,
    ensures
        ({
            let outcome = env::resolved_items(items, count, holdings, stands);
            &&& outcome.error is None
            &&& outcome.value.len() == items.len()
            &&& forall|i: int|
                0 <= i < count ==> #[trigger] outcome.value[i] == env::resolved(
                    items[i],
                    holdings,
                    stands,
                ).value
            &&& forall|i: int| count <= i < items.len() ==> #[trigger] outcome.value[i] == items[i]
            &&& forall|name: Seq<char>| #[trigger]
                outcome.names.contains(name) <==> exists|i: int|
                    0 <= i < count && env::resolved(
                        #[trigger] items[i],
                        holdings,
                        stands,
                    ).names.contains(name)
        }),
    decreases count,
{
    if count > 0 {
        let index = count - 1;
        lemma_items_alone(items, index as nat, holdings, stands);
        let before = env::resolved_items(items, index as nat, holdings, stands);
        let own = env::resolved(items[index], holdings, stands);
        let outcome = env::resolved_items(items, count, holdings, stands);
        assert forall|name: Seq<char>| #[trigger] outcome.names.contains(name) implies exists|
            i: int,
        |
            0 <= i < count && env::resolved(#[trigger] items[i], holdings, stands).names.contains(
                name,
            ) by {
            if before.names.contains(name) {
                let i = choose|i: int|
                    0 <= i < index && env::resolved(
                        #[trigger] items[i],
                        holdings,
                        stands,
                    ).names.contains(name);
                assert(env::resolved(items[i], holdings, stands).names.contains(name));
            } else {
                assert(own.names.contains(name));
            }
        }
        assert forall|name: Seq<char>|
            (exists|i: int|
                0 <= i < count && env::resolved(
                    #[trigger] items[i],
                    holdings,
                    stands,
                ).names.contains(name)) implies #[trigger] outcome.names.contains(name) by {
            let i = choose|i: int|
                0 <= i < count && env::resolved(#[trigger] items[i], holdings, stands).names.contains(
                    name,
                );
            if i < index {
                assert(before.names.contains(name));
            } else {
                assert(own.names.contains(name));
            }
        }
    }
}

/// Where no item of an array has an error, the array has none: each item becomes
/// what it resolves to on its own, and the variables that are put in are those
/// of the items.
pub proof fn law_items_resolve_on_their_own(
    items: Seq<ValueView>,
    holdings: Holdings,
    stands: Stands,
)
    requires
        forall|i: int|
            0 <= i < items.len() ==> env::resolved(
                #[trigger] items[i],
                holdings,
                stands,
            ).error is None,
    ensures
        ({
            let outcome = env::resolved(ValueView::Array(items), holdings, stands);
            &&& outcome.error is None
            &&& outcome.value matches ValueView::Array(after)
            &&& after.len() == items.len()
            &&& forall|i: int|
                0 <= i < items.len() ==> #[trigger] after[i] == env::resolved(
                    items[i],
                    holdings,
                    stands,
                ).value
            &&& forall|name: Seq<char>| #[trigger]
                outcome.names.contains(name) <==> exists|i: int|
                    0 <= i < items.len() && env::resolved(
                        #[trigger] items[i],
                        holdings,
                        stands,
                    ).names.contains(name)
        }),
{
    lemma_items_alone(items, items.len(), holdings, stands);
}

/// The first item of an array that has an error stops it: what comes before, and
/// that item, is as it resolves on its own, what comes after as it was, and the
/// error is that of the item.
pub proof fn law_first_failing_item_decides(
    items: Seq<ValueView>,
    first: int,
    holdings: Holdings,
    stands: Stands,
)
    requires
        0 <= first < items.len(),
        forall|i: int|
            0 <= i < first ==> env::resolved(#[trigger] items[i], holdings, stands).error is None,
        env::resolved(items[first], holdings, stands).error is Some,
    ensures
        ({
            let outcome = env::resolved(ValueView::Array(items), holdings, stands);
            &&& outcome.error == env::resolved(items[first], holdings, stands).error
            &&& outcome.value matches ValueView::Array(after)
            &&& after.len() == items.len()
            &&& forall|i: int|
                0 <= i <= first ==> #[trigger] after[i] == env::resolved(
                    items[i],
                    holdings,
                    stands,
                ).value
            &&& forall|i: int| first < i < items.len() ==> #[trigger] after[i] == items[i]
            &&& forall|name: Seq<char>| #[trigger]
                outcome.names.contains(name) ==> exists|i: int|
                    0 <= i <= first && env::resolved(
                        #[trigger] items[i],
                        holdings,
                        stands,
                    ).names.contains(name)
            &&& forall|name: Seq<char>, i: int|
                0 <= i <= first && #[trigger] env::resolved(
                    items[i],
                    holdings,
                    stands,
                ).names.contains(name) ==> outcome.names.contains(name)
        }),
{
    lemma_items_alone(items, first as nat, holdings, stands);
    env::lemma_items_stop(items, (first + 1) as nat, items.len(), holdings, stands);
    let before = env::resolved_items(items, first as nat, holdings, stands);
    let own = env::resolved(items[first], holdings, stands);
    let outcome = env::resolved(ValueView::Array(items), holdings, stands);
    assert(outcome.names == before.names.union(own.names));
    assert forall|name: Seq<char>| #[trigger] outcome.names.contains(name) implies exists|i: int|
        0 <= i <= first && env::resolved(#[trigger] items[i], holdings, stands).names.contains(
            name,
        ) by {
        if before.names.contains(name) {
            let i = choose|i: int|
                0 <= i < first && env::resolved(#[trigger] items[i], holdings, stands).names.contains(
                    name,
                );
            assert(env::resolved(items[i], holdings, stands).names.contains(name));
        } else {
            assert(env::resolved(items[first], holdings, stands).names.contains(name));
        }
    }
    assert forall|name: Seq<char>, i: int|
        0 <= i <= first && #[trigger] env::resolved(items[i], holdings, stands).names.contains(
            name,
        ) implies outcome.names.contains(name) by {
        if i < first {
            assert(before.names.contains(name));
        }
    }
}

/// The first `count` entries, where none of them has an error.
proof fn lemma_entries_alone(entries: Seq<(Seq<char>, ValueView)>, count: nat, holdings: Holdings, stands: Stands)
    requires
        count <= entries.len(),
        forall|i: int|
            0 <= i < count ==> env::resolved((#[trigger] entries[i]).1, holdings, stands).error is None,
    ensures
        ({
            let outcome = env::resolved_entries(entries, count, holdings, stands);
            &&& outcome.error is None
            &&& outcome.value.len() == entries.len()
            &&& forall|i: int|
                0 <= i < count ==> #[trigger] outcome.value[i] == (
                    entries[i].0,
                    env::resolved(entries[i].1, holdings, stands).value,
                )
            &&& forall|i: int| count <= i < entries.len() ==> #[trigger] outcome.value[i] == entries[i]
            &&& forall|name: Seq<char>| #[trigger]
                outcome.names.contains(name) <==> exists|i: int|
                    0 <= i < count && env::resolved(
                        (#[trigger] entries[i]).1,
                        holdings,
                        stands,
                    ).names.contains(name)
        }),
    decreases count,
{
    if count > 0 {
        let index = count - 1;
        lemma_entries_alone(entries, index as nat, holdings, stands);
        let before = env::resolved_entries(entries, index as nat, holdings, stands);
        let own = env::resolved(entries[index].1, holdings, stands);
        let outcome = env::resolved_entries(entries, count, holdings, stands);
        assert forall|name: Seq<char>| #[trigger] outcome.names.contains(name) implies exists|
            i: int,
        |
            0 <= i < count && env::resolved((#[trigger] entries[i]).1, holdings, stands).names.contains(
                name,
            ) by {
            if before.names.contains(name) {
                let i = choose|i: int|
                    0 <= i < index && env::resolved(
                        (#[trigger] entries[i]).1,
                        holdings,
                        stands,
                    ).names.contains(name);
                assert(env::resolved(entries[i].1, holdings, stands).names.contains(name));
            } else {
                assert(own.names.contains(name));
            }
        }
        assert forall|name: Seq<char>|
            (exists|i: int|
                0 <= i < count && env::resolved(
                    (#[trigger] entries[i]).1,
                    holdings,
                    stands,
                ).names.contains(name)) implies #[trigger] outcome.names.contains(name) by {
            let i = choose|i: int|
                0 <= i < count && env::resolved((#[trigger] entries[i]).1, holdings, stands).names.contains(
                    name,
                );
            if i < index {
                assert(before.names.contains(name));
            } else {
                assert(own.names.contains(name));
            }
        }
    }
}

/// Where no value of a table has an error, the table has none: each key keeps its
/// place, its value becomes what it resolves to on its own, and the variables
/// that are put in are those of the values.
pub proof fn law_entries_resolve_on_their_own(
    entries: Seq<(Seq<char>, ValueView)>,
    holdings: Holdings,
    stands: Stands,
)
    requires
        forall|i: int|
            0 <= i < entries.len() ==> env::resolved(
                (#[trigger] entries[i]).1,
                holdings,
                stands,
            ).error is None,
    ensures
        ({
            let outcome = env::resolved(ValueView::Table(entries), holdings, stands);
            &&& outcome.error is None
            &&& outcome.value matches ValueView::Table(after)
            &&& after.len() == entries.len()
            &&& forall|i: int|
                0 <= i < entries.len() ==> #[trigger] after[i] == (
                    entries[i].0,
                    env::resolved(entries[i].1, holdings, stands).value,
                )
            &&& forall|name: Seq<char>| #[trigger]
                outcome.names.contains(name) <==> exists|i: int|
                    0 <= i < entries.len() && env::resolved(
                        (#[trigger] entries[i]).1,
                        holdings,
                        stands,
                    ).names.contains(name)
        }),
{
    lemma_entries_alone(entries, entries.len(), holdings, stands);
}

/// The first value of a table that has an error stops it: what comes before, and
/// that value, is as it resolves on its own, what comes after as it was, and the
/// error is that of the value.
pub proof fn law_first_failing_entry_decides(
    entries: Seq<(Seq<char>, ValueView)>,
    first: int,
    holdings: Holdings,
    stands: Stands,
)
    requires
        0 <= first < entries.len(),
        forall|i: int|
            0 <= i < first ==> env::resolved((#[trigger] entries[i]).1, holdings, stands).error is None,
        env::resolved(entries[first].1, holdings, stands).error is Some,
    ensures
        ({
            let outcome = env::resolved(ValueView::Table(entries), holdings, stands);
            &&& outcome.error == env::resolved(entries[first].1, holdings, stands).error
            &&& outcome.value matches ValueView::Table(after)
            &&& after.len() == entries.len()
            &&& forall|i: int|
                0 <= i <= first ==> #[trigger] after[i] == (
                    entries[i].0,
                    env::resolved(entries[i].1, holdings, stands).value,
                )
            &&& forall|i: int| first < i < entries.len() ==> #[trigger] after[i] == entries[i]
            &&& forall|name: Seq<char>| #[trigger]
                outcome.names.contains(name) ==> exists|i: int|
                    0 <= i <= first && env::resolved(
                        (#[trigger] entries[i]).1,
                        holdings,
                        stands,
                    ).names.contains(name)
            &&& forall|name: Seq<char>, i: int|
                0 <= i <= first && #[trigger] env::resolved(
                    entries[i].1,
                    holdings,
                    stands,
                ).names.contains(name) ==> outcome.names.contains(name)
        }),
{
    lemma_entries_alone(entries, first as nat, holdings, stands);
    env::lemma_entries_stop(entries, (first + 1) as nat, entries.len(), holdings, stands);
    let before = env::resolved_entries(entries, first as nat, holdings, stands);
    let own = env::resolved(entries[first].1, holdings, stands);
    let outcome = env::resolved(ValueView::Table(entries), holdings, stands);
    assert(outcome.names == before.names.union(own.names));
    assert forall|name: Seq<char>| #[trigger] outcome.names.contains(name) implies exists|i: int|
        0 <= i <= first && env::resolved((#[trigger] entries[i]).1, holdings, stands).names.contains(
            name,
        ) by {
        if before.names.contains(name) {
            let i = choose|i: int|
                0 <= i < first && env::resolved((#[trigger] entries[i]).1, holdings, stands).names.contains(
                    name,
                );
            assert(env::resolved(entries[i].1, holdings, stands).names.contains(name));
        } else {
            assert(env::resolved(entries[first].1, holdings, stands).names.contains(name));
        }
    }
    assert forall|name: Seq<char>, i: int|
        0 <= i <= first && #[trigger] env::resolved(entries[i].1, holdings, stands).names.contains(
            name,
        ) implies outcome.names.contains(name) by {
        if i < first {
            assert(before.names.contains(name));
        }
    }
}

/// A document that cannot be read is refused with the error of reading it.
pub proof fn law_unreadable_documents_are_refused(
    document: Seq<char>,
    holdings: Holdings,
    error: toml::de::Error,
)
    requires
        document::toml_document(
            mask::masked(
                mask::pieces(mask::State::Document, document),
                mask::fresh_prefix(document),
                0,
            ),
        ) == Err::<ValueView, toml::de::Error>(error),
    ensures
        env::resolution(document, holdings) == Err::<
            (ValueView, Set<Seq<char>>),
            ResolveErrorView,
        >(ResolveErrorView::Document(error)),
{
}

/// A document that is read resolves to what is read from it, resolved with what
/// its markers stand for; an error of its bare placeholders comes before one of
/// its quoted ones.
pub proof fn law_documents_resolve_to_what_is_read(
    document: Seq<char>,
    holdings: Holdings,
    prefix: Seq<char>,
    root: ValueView,
)
    requires
        reading::reading(document) == Ok::<(Seq<char>, ValueView), toml::de::Error>((prefix, root)),
    ensures
        match env::stands_for(mask::placeholders_with(document, prefix), holdings) {
            Err(error) => env::resolution(document, holdings) == Err::<
                (ValueView, Set<Seq<char>>),
                ResolveErrorView,
            >(error),
            Ok(stands) => {
                let outcome = env::resolved(root, holdings, stands);
                match outcome.error {
                    Some(error) => env::resolution(document, holdings) == Err::<
                        (ValueView, Set<Seq<char>>),
                        ResolveErrorView,
                    >(error),
                    None => env::resolution(document, holdings) == Ok::<
                        (ValueView, Set<Seq<char>>),
                        ResolveErrorView,
                    >((outcome.value, outcome.names)),
                }
            },
        },
{
}

} // verus!
