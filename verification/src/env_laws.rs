//! What resolving promises of every document and environment.
use vstd::prelude::*;

use crate::document::{self, ValueView};
use crate::env::{self, Holdings, Outcome, ResolveErrorView, Stands};
use crate::mask;
use crate::mask_laws;
use crate::reading;

verus! {

/// Some text of the value is a marker or a placeholder.
pub open spec fn refers(value: ValueView, stands: Stands) -> bool
    decreases value,
{
    match value {
        ValueView::Text(text) => stands.contains_key(text) || mask::quoted_name(
            text,
        ) is Some,
        ValueView::Array(items) => exists|i: int|
            0 <= i < items.len() && refers(#[trigger] items[i], stands),
        ValueView::Table(entries) => exists|i: int|
            0 <= i < entries.len() && refers((#[trigger] entries[i]).1, stands),
        _ => false,
    }
}

/// A value that refers to nothing is resolved to itself, whatever the variables.
pub proof fn law_nothing_to_resolve(value: ValueView, holdings: Holdings, stands: Stands)
    requires
        !refers(value, stands),
    ensures
        env::resolved(value, holdings, stands) == (Outcome {
            value,
            names: Set::<Seq<char>>::empty(),
            error: None::<ResolveErrorView>,
        }),
    decreases value, 0int,
{
    match value {
        ValueView::Array(items) => {
            lemma_items_unchanged(items, items.len(), holdings, stands);
        },
        ValueView::Table(entries) => {
            lemma_entries_unchanged(entries, entries.len(), holdings, stands);
        },
        _ => {},
    }
}

proof fn lemma_items_unchanged(
    items: Seq<ValueView>,
    count: nat,
    holdings: Holdings,
    stands: Stands,
)
    requires
        forall|i: int| 0 <= i < items.len() ==> !refers(#[trigger] items[i], stands),
        count <= items.len(),
    ensures
        env::resolved_items(items, count, holdings, stands) == (Outcome {
            value: items,
            names: Set::<Seq<char>>::empty(),
            error: None::<ResolveErrorView>,
        }),
    decreases items, count,
{
    if count > 0 {
        lemma_items_unchanged(items, (count - 1) as nat, holdings, stands);
        law_nothing_to_resolve(items[count - 1], holdings, stands);
        assert(items.update(count - 1, items[count - 1]) =~= items);
        assert(Set::<Seq<char>>::empty().union(Set::empty()) =~= Set::empty());
    }
}

proof fn lemma_entries_unchanged(
    entries: Seq<(Seq<char>, ValueView)>,
    count: nat,
    holdings: Holdings,
    stands: Stands,
)
    requires
        forall|i: int| 0 <= i < entries.len() ==> !refers((#[trigger] entries[i]).1, stands),
        count <= entries.len(),
    ensures
        env::resolved_entries(entries, count, holdings, stands) == (Outcome {
            value: entries,
            names: Set::<Seq<char>>::empty(),
            error: None::<ResolveErrorView>,
        }),
    decreases entries, count,
{
    if count > 0 {
        lemma_entries_unchanged(entries, (count - 1) as nat, holdings, stands);
        law_nothing_to_resolve(entries[count - 1].1, holdings, stands);
        assert(entries.update(count - 1, entries[count - 1]) =~= entries);
        assert(Set::<Seq<char>>::empty().union(Set::empty()) =~= Set::empty());
    }
}

/// A document without placeholders resolves to what is read from it, with no
/// variable put in, whatever the variables.
pub proof fn law_plain_document_is_read_as_it_is(
    document: Seq<char>,
    root: ValueView,
    holdings: Holdings,
)
    requires
        mask::document_names(document).len() == 0,
        document::toml_document(document) == Ok::<ValueView, toml::de::Error>(root),
        !refers(root, Map::empty()),
    ensures
        env::resolution(document, holdings) == Ok::<
            (ValueView, Set<Seq<char>>),
            ResolveErrorView,
        >((root, Set::<Seq<char>>::empty())),
{
    mask_laws::law_nothing_to_mask(document);
    let prefix = mask::fresh_prefix(document);
    assert(mask::placeholders_with(document, prefix).len() == 0);
    law_nothing_to_resolve(root, holdings, Map::empty());
}

/// Resolving an array keeps its length.
pub proof fn law_arrays_keep_their_length(
    items: Seq<ValueView>,
    holdings: Holdings,
    stands: Stands,
)
    ensures
        env::resolved(ValueView::Array(items), holdings, stands).value matches
            ValueView::Array(after) && after.len() == items.len(),
{
    lemma_items_len(items, items.len(), holdings, stands);
}

proof fn lemma_items_len(items: Seq<ValueView>, count: nat, holdings: Holdings, stands: Stands)
    requires
        count <= items.len(),
    ensures
        env::resolved_items(items, count, holdings, stands).value.len() == items.len(),
    decreases count,
{
    if count > 0 {
        lemma_items_len(items, (count - 1) as nat, holdings, stands);
    }
}

/// Resolving a table keeps its keys and their order.
pub proof fn law_tables_keep_their_keys(
    entries: Seq<(Seq<char>, ValueView)>,
    holdings: Holdings,
    stands: Stands,
)
    ensures
        env::resolved(ValueView::Table(entries), holdings, stands).value matches
            ValueView::Table(after) && after.len() == entries.len() && forall|i: int|
            0 <= i < after.len() ==> (#[trigger] after[i]).0 == entries[i].0,
{
    lemma_entries_keys(entries, entries.len(), holdings, stands);
}

proof fn lemma_entries_keys(
    entries: Seq<(Seq<char>, ValueView)>,
    count: nat,
    holdings: Holdings,
    stands: Stands,
)
    requires
        count <= entries.len(),
    ensures
        ({
            let after = env::resolved_entries(entries, count, holdings, stands).value;
            &&& after.len() == entries.len()
            &&& forall|i: int| 0 <= i < after.len() ==> (#[trigger] after[i]).0 == entries[i].0
        }),
    decreases count,
{
    if count > 0 {
        lemma_entries_keys(entries, (count - 1) as nat, holdings, stands);
    }
}

/// The placeholder of the variable is a text of the value.
pub open spec fn quotes(value: ValueView, name: Seq<char>) -> bool
    decreases value,
{
    match value {
        ValueView::Text(text) => mask::quoted_name(text) == Some(name),
        ValueView::Array(items) => exists|i: int|
            0 <= i < items.len() && quotes(#[trigger] items[i], name),
        ValueView::Table(entries) => exists|i: int|
            0 <= i < entries.len() && quotes((#[trigger] entries[i]).1, name),
        _ => false,
    }
}

/// What the markers of a document stand for, if that could be found out.
pub open spec fn document_stands(document: Seq<char>, holdings: Holdings) -> Result<
    Stands,
    ResolveErrorView,
> {
    match reading::reading(document) {
        Err(error) => Err(ResolveErrorView::Document(error)),
        Ok((prefix, _)) => env::stands_for(mask::placeholders_with(document, prefix), holdings),
    }
}

/// The prefix of the markers by which a document is read.
pub open spec fn prefix_used(document: Seq<char>) -> Seq<char> {
    reading::reading(document)->Ok_0.0
}

/// What is read from a document, with the markers in it.
pub open spec fn root_read(document: Seq<char>) -> ValueView {
    reading::reading(document)->Ok_0.1
}

/// Each marker of a document stands for its own placeholder: it is resolved to
/// the value that the variable of that placeholder holds.
pub proof fn law_markers_stand_for_their_variables(
    document: Seq<char>,
    holdings: Holdings,
    stands: Stands,
    index: int,
)
    requires
        document_stands(document, holdings) == Ok::<Stands, ResolveErrorView>(stands),
        0 <= index < mask::document_names(document).len(),
    ensures
        ({
            let marker = mask::marker(prefix_used(document), index as nat);
            let name = mask::document_names(document)[index];
            &&& stands.contains_key(marker)
            &&& stands[marker].0 == name
            &&& env::lookup(holdings, name) matches Ok(text)
            &&& env::value_in(name, text) == Ok::<ValueView, ResolveErrorView>(
                stands[marker].1,
            )
            &&& env::resolved(ValueView::Text(marker), holdings, stands) == (Outcome {
                value: stands[marker].1,
                names: set![name],
                error: None::<ResolveErrorView>,
            })
        }),
{
    let prefix = prefix_used(document);
    let placeholders = mask::placeholders_with(document, prefix);
    assert forall|i: int, j: int|
        #![trigger placeholders[i], placeholders[j]]
        0 <= i < j < placeholders.len() implies placeholders[i].0 != placeholders[j].0 by {
        if placeholders[i].0 == placeholders[j].0 {
            mask_laws::law_markers_are_distinct(prefix, i as nat, j as nat);
        }
    }
    lemma_stands(placeholders, holdings, stands);
    assert(placeholders[index].1 == mask::document_names(document)[index]);
}

/// What placeholders with different markers stand for, and that nothing else
/// stands for anything.
proof fn lemma_stands(
    placeholders: Seq<(Seq<char>, Seq<char>)>,
    holdings: Holdings,
    stands: Stands,
)
    requires
        env::stands_for(placeholders, holdings) == Ok::<Stands, ResolveErrorView>(stands),
        forall|i: int, j: int|
            #![trigger placeholders[i], placeholders[j]]
            0 <= i < j < placeholders.len() ==> placeholders[i].0 != placeholders[j].0,
    ensures
        forall|i: int|
            0 <= i < placeholders.len() ==> stands.contains_key((#[trigger] placeholders[i]).0)
                && stands[placeholders[i].0].0 == placeholders[i].1 && (env::lookup(
                holdings,
                placeholders[i].1,
            ) matches Ok(text) && env::value_in(placeholders[i].1, text) == Ok::<
                ValueView,
                ResolveErrorView,
            >(stands[placeholders[i].0].1)),
        forall|marker: Seq<char>|
            stands.contains_key(marker) ==> exists|i: int|
                0 <= i < placeholders.len() && (#[trigger] placeholders[i]).0 == marker,
    decreases placeholders.len(),
{
    if placeholders.len() > 0 {
        let earlier = placeholders.drop_last();
        let before = env::stands_for(earlier, holdings)->Ok_0;
        assert forall|i: int, j: int|
            #![trigger earlier[i], earlier[j]]
            0 <= i < j < earlier.len() implies earlier[i].0 != earlier[j].0 by {
            assert(earlier[i] == placeholders[i] && earlier[j] == placeholders[j]);
        }
        lemma_stands(earlier, holdings, before);
        let last = placeholders.len() - 1;
        assert forall|i: int| 0 <= i < placeholders.len() implies stands.contains_key(
            (#[trigger] placeholders[i]).0,
        ) && stands[placeholders[i].0].0 == placeholders[i].1 && (env::lookup(
            holdings,
            placeholders[i].1,
        ) matches Ok(text) && env::value_in(placeholders[i].1, text) == Ok::<
            ValueView,
            ResolveErrorView,
        >(stands[placeholders[i].0].1)) by {
            if i < last {
                assert(earlier[i] == placeholders[i]);
                assert(placeholders[i].0 != placeholders[last].0);
            }
        }
        assert forall|marker: Seq<char>| stands.contains_key(marker) implies exists|i: int|
            0 <= i < placeholders.len() && (#[trigger] placeholders[i]).0 == marker by {
            if before.contains_key(marker) {
                let i = choose|i: int|
                    0 <= i < earlier.len() && (#[trigger] earlier[i]).0 == marker;
                assert(placeholders[i].0 == marker);
            } else {
                assert(placeholders[last].0 == marker);
            }
        }
    }
}

/// Nothing stands for a value but the markers of the placeholders.
pub(crate) proof fn lemma_markers_are_placeholders(
    placeholders: Seq<(Seq<char>, Seq<char>)>,
    holdings: Holdings,
    stands: Stands,
    marker: Seq<char>,
)
    requires
        env::stands_for(placeholders, holdings) == Ok::<Stands, ResolveErrorView>(stands),
        stands.contains_key(marker),
    ensures
        exists|i: int| 0 <= i < placeholders.len() && (#[trigger] placeholders[i]).0 == marker,
    decreases placeholders.len(),
{
    let last = placeholders.len() - 1;
    if placeholders[last].0 != marker {
        let earlier = placeholders.drop_last();
        let before = env::stands_for(earlier, holdings)->Ok_0;
        lemma_markers_are_placeholders(earlier, holdings, before, marker);
        let i = choose|i: int| 0 <= i < earlier.len() && (#[trigger] earlier[i]).0 == marker;
        assert(placeholders[i] == earlier[i]);
    }
}

/// What every prefix starts with.
proof fn lemma_prefix_start(document: Seq<char>)
    requires
        reading::reading(document) is Ok,
    ensures
        prefix_used(document).len() > 0,
        prefix_used(document)[0] == '_',
{
    reveal_strlit("__RET2SHELL_ENV_");
    assert forall|suffix: nat| (#[trigger] mask::env_prefix(suffix)).len() > 0 && mask::env_prefix(
        suffix,
    )[0] == '_' by {}
}

/// A placeholder is never a marker of a document.
proof fn lemma_placeholders_are_no_markers(
    document: Seq<char>,
    holdings: Holdings,
    stands: Stands,
    text: Seq<char>,
)
    requires
        document_stands(document, holdings) == Ok::<Stands, ResolveErrorView>(stands),
        mask::quoted_name(text) is Some,
    ensures
        !stands.contains_key(text),
{
    let prefix = prefix_used(document);
    let placeholders = mask::placeholders_with(document, prefix);
    assert forall|i: int, j: int|
        #![trigger placeholders[i], placeholders[j]]
        0 <= i < j < placeholders.len() implies placeholders[i].0 != placeholders[j].0 by {
        if placeholders[i].0 == placeholders[j].0 {
            mask_laws::law_markers_are_distinct(prefix, i as nat, j as nat);
        }
    }
    lemma_stands(placeholders, holdings, stands);
    if stands.contains_key(text) {
        let i = choose|i: int|
            0 <= i < placeholders.len() && (#[trigger] placeholders[i]).0 == text;
        lemma_prefix_start(document);
        assert(mask::marker(prefix, i as nat)[0] == prefix[0]);
        assert(text[0] == '$');
    }
}

/// A quoted placeholder becomes the text that its variable holds, as it is: the
/// text is not looked through for placeholders again.
pub proof fn law_quoted_placeholder_becomes_text(
    document: Seq<char>,
    holdings: Holdings,
    stands: Stands,
    name: Seq<char>,
    held: Seq<char>,
)
    requires
        document_stands(document, holdings) == Ok::<Stands, ResolveErrorView>(stands),
        mask::is_name(name),
        env::lookup(holdings, name) == Ok::<Seq<char>, ResolveErrorView>(held),
    ensures
        env::resolved(
            ValueView::Text(mask::placeholder_of(name)),
            holdings,
            stands,
        ) == (Outcome {
            value: ValueView::Text(held),
            names: set![name],
            error: None::<ResolveErrorView>,
        }),
{
    let text = mask::placeholder_of(name);
    mask_laws::law_quoted_placeholder_is_exact(text, name);
    lemma_placeholders_are_no_markers(document, holdings, stands, text);
}

/// Referenced variables are required: where a document resolves, the variable of
/// each of its bare placeholders is set, to a TOML value.
pub proof fn law_bare_placeholders_require_values(
    document: Seq<char>,
    holdings: Holdings,
    index: int,
)
    requires
        env::resolution(document, holdings) is Ok,
        0 <= index < mask::document_names(document).len(),
    ensures
        ({
            let name = mask::document_names(document)[index];
            &&& env::lookup(holdings, name) matches Ok(text)
            &&& env::value_in(name, text) is Ok
        }),
{
    let stands = document_stands(document, holdings)->Ok_0;
    law_markers_stand_for_their_variables(document, holdings, stands, index);
}

/// Referenced variables are required: where a document resolves, the variable of
/// each quoted placeholder that was read from it is set, and is among those that
/// were put in.
pub proof fn law_quoted_placeholders_require_variables(
    document: Seq<char>,
    holdings: Holdings,
    name: Seq<char>,
)
    requires
        env::resolution(document, holdings) is Ok,
        quotes(root_read(document), name),
    ensures
        env::lookup(holdings, name) is Ok,
        env::resolution(document, holdings)->Ok_0.1.contains(name),
{
    let stands = document_stands(document, holdings)->Ok_0;
    assert forall|text: Seq<char>| mask::quoted_name(
        text,
    ) is Some implies !#[trigger] stands.contains_key(text) by {
        lemma_placeholders_are_no_markers(document, holdings, stands, text);
    }
    lemma_quoted_is_put_in(root_read(document), holdings, stands, name);
}

proof fn lemma_quoted_is_put_in(
    value: ValueView,
    holdings: Holdings,
    stands: Stands,
    name: Seq<char>,
)
    requires
        forall|text: Seq<char>|
            mask::quoted_name(text) is Some ==> !#[trigger] stands.contains_key(text),
        quotes(value, name),
        env::resolved(value, holdings, stands).error is None,
    ensures
        env::lookup(holdings, name) is Ok,
        env::resolved(value, holdings, stands).names.contains(name),
    decreases value, 0int,
{
    match value {
        ValueView::Array(items) => {
            lemma_items_quoted(items, items.len(), holdings, stands, name);
        },
        ValueView::Table(entries) => {
            lemma_entries_quoted(entries, entries.len(), holdings, stands, name);
        },
        _ => {},
    }
}

proof fn lemma_items_quoted(
    items: Seq<ValueView>,
    count: nat,
    holdings: Holdings,
    stands: Stands,
    name: Seq<char>,
)
    requires
        forall|text: Seq<char>|
            mask::quoted_name(text) is Some ==> !#[trigger] stands.contains_key(text),
        count <= items.len(),
        exists|i: int| 0 <= i < count && quotes(#[trigger] items[i], name),
        env::resolved_items(items, count, holdings, stands).error is None,
    ensures
        env::lookup(holdings, name) is Ok,
        env::resolved_items(items, count, holdings, stands).names.contains(name),
    decreases items, count,
{
    if quotes(items[count - 1], name) {
        lemma_quoted_is_put_in(items[count - 1], holdings, stands, name);
    } else {
        lemma_items_quoted(items, (count - 1) as nat, holdings, stands, name);
    }
}

proof fn lemma_entries_quoted(
    entries: Seq<(Seq<char>, ValueView)>,
    count: nat,
    holdings: Holdings,
    stands: Stands,
    name: Seq<char>,
)
    requires
        forall|text: Seq<char>|
            mask::quoted_name(text) is Some ==> !#[trigger] stands.contains_key(text),
        count <= entries.len(),
        exists|i: int| 0 <= i < count && quotes((#[trigger] entries[i]).1, name),
        env::resolved_entries(entries, count, holdings, stands).error is None,
    ensures
        env::lookup(holdings, name) is Ok,
        env::resolved_entries(entries, count, holdings, stands).names.contains(name),
    decreases entries, count,
{
    if quotes(entries[count - 1].1, name) {
        lemma_quoted_is_put_in(entries[count - 1].1, holdings, stands, name);
    } else {
        lemma_entries_quoted(entries, (count - 1) as nat, holdings, stands, name);
    }
}

/// The error is about a variable that really is in the way: one that is not set,
/// one that is set to something else than UTF-8, or one whose text is no value.
pub open spec fn is_justified(error: ResolveErrorView, holdings: Holdings) -> bool {
    match error {
        ResolveErrorView::Document(_) => true,
        ResolveErrorView::NotFound(name) => !holdings.contains_key(name),
        ResolveErrorView::NotUnicode(name) => holdings.contains_key(name)
            && holdings[name] is None,
        ResolveErrorView::InvalidValue(name) => {
            &&& env::lookup(holdings, name) matches Ok(text)
            &&& env::value_in(name, text) is Err
        },
    }
}

/// A document that is not resolved is refused for a reason.
pub proof fn law_errors_are_justified(document: Seq<char>, holdings: Holdings)
    requires
        env::resolution(document, holdings) is Err,
    ensures
        is_justified(env::resolution(document, holdings)->Err_0, holdings),
        env::resolution(document, holdings)->Err_0 matches ResolveErrorView::Document(error)
            ==> document::toml_document(mask::masked_document(document)) == Err::<
            ValueView,
            toml::de::Error,
        >(error),
{
    if let Ok((prefix, root)) = reading::reading(document) {
        lemma_stands_errors(mask::placeholders_with(document, prefix), holdings);
        if let Ok(stands) = document_stands(document, holdings) {
            lemma_resolved_errors(root, holdings, stands);
        }
    }
}

proof fn lemma_stands_errors(placeholders: Seq<(Seq<char>, Seq<char>)>, holdings: Holdings)
    ensures
        env::stands_for(placeholders, holdings) matches Err(error) ==> !(error is Document)
            && is_justified(error, holdings),
    decreases placeholders.len(),
{
    if placeholders.len() > 0 {
        lemma_stands_errors(placeholders.drop_last(), holdings);
    }
}

proof fn lemma_resolved_errors(value: ValueView, holdings: Holdings, stands: Stands)
    ensures
        env::resolved(value, holdings, stands).error matches Some(error) ==> !(
        error is Document) && is_justified(error, holdings),
    decreases value, 0int,
{
    match value {
        ValueView::Array(items) => {
            lemma_items_errors(items, items.len(), holdings, stands);
        },
        ValueView::Table(entries) => {
            lemma_entries_errors(entries, entries.len(), holdings, stands);
        },
        _ => {},
    }
}

proof fn lemma_items_errors(items: Seq<ValueView>, count: nat, holdings: Holdings, stands: Stands)
    requires
        count <= items.len(),
    ensures
        env::resolved_items(items, count, holdings, stands).error matches Some(error) ==> !(
        error is Document) && is_justified(error, holdings),
    decreases items, count,
{
    if count > 0 {
        lemma_items_errors(items, (count - 1) as nat, holdings, stands);
        lemma_resolved_errors(items[count - 1], holdings, stands);
    }
}

proof fn lemma_entries_errors(
    entries: Seq<(Seq<char>, ValueView)>,
    count: nat,
    holdings: Holdings,
    stands: Stands,
)
    requires
        count <= entries.len(),
    ensures
        env::resolved_entries(entries, count, holdings, stands).error matches Some(error)
            ==> !(error is Document) && is_justified(error, holdings),
    decreases entries, count,
{
    if count > 0 {
        lemma_entries_errors(entries, (count - 1) as nat, holdings, stands);
        lemma_resolved_errors(entries[count - 1].1, holdings, stands);
    }
}

/// An error about a value tells nothing of the value: it is the same for every
/// text that is refused.
pub proof fn law_refused_values_are_not_told(name: Seq<char>, first: Seq<char>, second: Seq<char>)
    requires
        env::value_in(name, first) is Err,
        env::value_in(name, second) is Err,
    ensures
        env::value_in(name, first) == env::value_in(name, second),
{
}

/// The document mentions the variable, in a bare placeholder or in a quoted one
/// that is read from it.
pub open spec fn mentions(document: Seq<char>, name: Seq<char>) -> bool {
    ||| mask::document_names(document).contains(name)
    ||| reading::reading(document) matches Ok((_, root)) && quotes(root, name)
}

/// Variables that a document does not mention do not matter.
pub proof fn law_other_variables_do_not_matter(
    document: Seq<char>,
    first: Holdings,
    second: Holdings,
)
    requires
        forall|name: Seq<char>| #[trigger]
            mentions(document, name) ==> env::lookup(first, name) == env::lookup(
                second,
                name,
            ),
    ensures
        env::resolution(document, first) == env::resolution(document, second),
{
    let placeholders = mask::placeholders_with(document, prefix_used(document));
    let names = mask::document_names(document);
    assert forall|i: int| 0 <= i < placeholders.len() implies env::lookup(
        first,
        (#[trigger] placeholders[i]).1,
    ) == env::lookup(second, placeholders[i].1) by {
        assert(placeholders[i].1 == names[i]);
        assert(names.contains(names[i]));
        assert(mentions(document, names[i]));
    }
    lemma_stands_agree(placeholders, first, second);
    if let Ok((_, root)) = reading::reading(document) {
        if let Ok(stands) = document_stands(document, first) {
            assert forall|name: Seq<char>| #[trigger] quotes(root, name) implies env::lookup(
                first,
                name,
            ) == env::lookup(second, name) by {
                assert(mentions(document, name));
            }
            lemma_resolved_agree(root, first, second, stands);
        }
    }
}

proof fn lemma_stands_agree(
    placeholders: Seq<(Seq<char>, Seq<char>)>,
    first: Holdings,
    second: Holdings,
)
    requires
        forall|i: int|
            0 <= i < placeholders.len() ==> env::lookup(
                first,
                (#[trigger] placeholders[i]).1,
            ) == env::lookup(second, placeholders[i].1),
    ensures
        env::stands_for(placeholders, first) == env::stands_for(
            placeholders,
            second,
        ),
    decreases placeholders.len(),
{
    if placeholders.len() > 0 {
        let earlier = placeholders.drop_last();
        assert forall|i: int| 0 <= i < earlier.len() implies env::lookup(
            first,
            (#[trigger] earlier[i]).1,
        ) == env::lookup(second, earlier[i].1) by {
            assert(earlier[i] == placeholders[i]);
        }
        lemma_stands_agree(earlier, first, second);
        assert(placeholders[placeholders.len() - 1] == placeholders.last());
    }
}

proof fn lemma_resolved_agree(
    value: ValueView,
    first: Holdings,
    second: Holdings,
    stands: Stands,
)
    requires
        forall|name: Seq<char>| #[trigger]
            quotes(value, name) ==> env::lookup(first, name) == env::lookup(
                second,
                name,
            ),
    ensures
        env::resolved(value, first, stands) == env::resolved(value, second, stands),
    decreases value, 0int,
{
    match value {
        ValueView::Text(text) => {
            if let Some(name) = mask::quoted_name(text) {
                assert(quotes(value, name));
            }
        },
        ValueView::Array(items) => {
            assert forall|i: int, name: Seq<char>|
                0 <= i < items.len() && #[trigger] quotes(items[i], name) implies quotes(
                value,
                name,
            ) by {}
            lemma_items_agree(items, items.len(), first, second, stands);
        },
        ValueView::Table(entries) => {
            assert forall|i: int, name: Seq<char>|
                0 <= i < entries.len() && #[trigger] quotes(entries[i].1, name) implies quotes(
                value,
                name,
            ) by {}
            lemma_entries_agree(entries, entries.len(), first, second, stands);
        },
        _ => {},
    }
}

proof fn lemma_items_agree(
    items: Seq<ValueView>,
    count: nat,
    first: Holdings,
    second: Holdings,
    stands: Stands,
)
    requires
        count <= items.len(),
        forall|i: int, name: Seq<char>|
            0 <= i < items.len() && #[trigger] quotes(items[i], name) ==> env::lookup(
                first,
                name,
            ) == env::lookup(second, name),
    ensures
        env::resolved_items(items, count, first, stands) == env::resolved_items(
            items,
            count,
            second,
            stands,
        ),
    decreases items, count,
{
    if count > 0 {
        lemma_items_agree(items, (count - 1) as nat, first, second, stands);
        lemma_resolved_agree(items[count - 1], first, second, stands);
    }
}

proof fn lemma_entries_agree(
    entries: Seq<(Seq<char>, ValueView)>,
    count: nat,
    first: Holdings,
    second: Holdings,
    stands: Stands,
)
    requires
        count <= entries.len(),
        forall|i: int, name: Seq<char>|
            0 <= i < entries.len() && #[trigger] quotes(entries[i].1, name) ==> env::lookup(
                first,
                name,
            ) == env::lookup(second, name),
    ensures
        env::resolved_entries(entries, count, first, stands)
            == env::resolved_entries(entries, count, second, stands),
    decreases entries, count,
{
    if count > 0 {
        lemma_entries_agree(entries, (count - 1) as nat, first, second, stands);
        lemma_resolved_agree(entries[count - 1].1, first, second, stands);
    }
}

/// The variables that were put in are among those that the document mentions,
/// and they are set.
pub proof fn law_only_mentioned_variables_are_put_in(
    document: Seq<char>,
    holdings: Holdings,
    name: Seq<char>,
)
    requires
        env::resolution(document, holdings) is Ok,
        env::resolution(document, holdings)->Ok_0.1.contains(name),
    ensures
        mentions(document, name),
        env::lookup(holdings, name) is Ok,
{
    let placeholders = mask::placeholders_with(document, prefix_used(document));
    let names = mask::document_names(document);
    let root = root_read(document);
    let stands = document_stands(document, holdings)->Ok_0;
    lemma_put_in(root, holdings, stands, name);
    if exists|marker: Seq<char>|
        stands.contains_key(marker) && (#[trigger] stands[marker]).0 == name {
        let marker = choose|marker: Seq<char>|
            stands.contains_key(marker) && (#[trigger] stands[marker]).0 == name;
        lemma_stands_names(placeholders, holdings, stands, marker);
        let index = choose|index: int|
            0 <= index < placeholders.len() && (#[trigger] placeholders[index]).1
                == stands[marker].0;
        assert(names[index] == name);
        law_bare_placeholders_require_values(document, holdings, index);
    }
}

proof fn lemma_stands_names(
    placeholders: Seq<(Seq<char>, Seq<char>)>,
    holdings: Holdings,
    stands: Stands,
    marker: Seq<char>,
)
    requires
        env::stands_for(placeholders, holdings) == Ok::<Stands, ResolveErrorView>(stands),
        stands.contains_key(marker),
    ensures
        exists|index: int|
            0 <= index < placeholders.len() && (#[trigger] placeholders[index]).1
                == stands[marker].0,
    decreases placeholders.len(),
{
    let last = placeholders.len() - 1;
    if placeholders[last].0 == marker {
        assert(placeholders[last].1 == stands[marker].0);
    } else {
        let earlier = placeholders.drop_last();
        let before = env::stands_for(earlier, holdings)->Ok_0;
        lemma_stands_names(earlier, holdings, before, marker);
        let index = choose|index: int|
            0 <= index < earlier.len() && (#[trigger] earlier[index]).1 == before[marker].0;
        assert(placeholders[index] == earlier[index]);
    }
}

/// The name was put in for a quoted placeholder or for a marker.
spec fn put_in(
    quoted: bool,
    holdings: Holdings,
    stands: Stands,
    name: Seq<char>,
) -> bool {
    ||| quoted && env::lookup(holdings, name) is Ok
    ||| exists|marker: Seq<char>|
        stands.contains_key(marker) && (#[trigger] stands[marker]).0 == name
}

proof fn lemma_put_in(value: ValueView, holdings: Holdings, stands: Stands, name: Seq<char>)
    requires
        env::resolved(value, holdings, stands).names.contains(name),
    ensures
        put_in(quotes(value, name), holdings, stands, name),
    decreases value, 0int,
{
    match value {
        ValueView::Array(items) => {
            lemma_items_put_in(items, items.len(), holdings, stands, name);
        },
        ValueView::Table(entries) => {
            lemma_entries_put_in(entries, entries.len(), holdings, stands, name);
        },
        _ => {},
    }
}

proof fn lemma_items_put_in(
    items: Seq<ValueView>,
    count: nat,
    holdings: Holdings,
    stands: Stands,
    name: Seq<char>,
)
    requires
        count <= items.len(),
        env::resolved_items(items, count, holdings, stands).names.contains(name),
    ensures
        put_in(
            exists|i: int| 0 <= i < items.len() && quotes(#[trigger] items[i], name),
            holdings,
            stands,
            name,
        ),
    decreases items, count,
{
    if env::resolved_items(items, (count - 1) as nat, holdings, stands).names.contains(name) {
        lemma_items_put_in(items, (count - 1) as nat, holdings, stands, name);
    } else {
        lemma_put_in(items[count - 1], holdings, stands, name);
    }
}

proof fn lemma_entries_put_in(
    entries: Seq<(Seq<char>, ValueView)>,
    count: nat,
    holdings: Holdings,
    stands: Stands,
    name: Seq<char>,
)
    requires
        count <= entries.len(),
        env::resolved_entries(entries, count, holdings, stands).names.contains(name),
    ensures
        put_in(
            exists|i: int| 0 <= i < entries.len() && quotes((#[trigger] entries[i]).1, name),
            holdings,
            stands,
            name,
        ),
    decreases entries, count,
{
    if env::resolved_entries(entries, (count - 1) as nat, holdings, stands).names.contains(name) {
        lemma_entries_put_in(entries, (count - 1) as nat, holdings, stands, name);
    } else {
        lemma_put_in(entries[count - 1].1, holdings, stands, name);
    }
}

/// The same markers stand for values of the same variables.
spec fn same_variables(first: Stands, second: Stands) -> bool {
    forall|marker: Seq<char>| #[trigger]
        first.contains_key(marker) == second.contains_key(marker) && (first.contains_key(marker)
            ==> first[marker].0 == second[marker].0)
}

/// Which variables are put in depends on the document alone: where it resolves
/// with two environments, the same variables are put in.
pub proof fn law_names_depend_on_the_document(
    document: Seq<char>,
    first: Holdings,
    second: Holdings,
)
    requires
        env::resolution(document, first) is Ok,
        env::resolution(document, second) is Ok,
    ensures
        env::resolution(document, first)->Ok_0.1 == env::resolution(document, second)->Ok_0.1,
{
    let placeholders = mask::placeholders_with(document, prefix_used(document));
    lemma_same_variables(placeholders, first, second);
    lemma_same_names(
        root_read(document),
        first,
        second,
        document_stands(document, first)->Ok_0,
        document_stands(document, second)->Ok_0,
    );
}

proof fn lemma_same_variables(
    placeholders: Seq<(Seq<char>, Seq<char>)>,
    first: Holdings,
    second: Holdings,
)
    requires
        env::stands_for(placeholders, first) is Ok,
        env::stands_for(placeholders, second) is Ok,
    ensures
        same_variables(
            env::stands_for(placeholders, first)->Ok_0,
            env::stands_for(placeholders, second)->Ok_0,
        ),
    decreases placeholders.len(),
{
    if placeholders.len() > 0 {
        lemma_same_variables(placeholders.drop_last(), first, second);
    }
}

proof fn lemma_same_names(
    value: ValueView,
    first: Holdings,
    second: Holdings,
    ours: Stands,
    theirs: Stands,
)
    requires
        same_variables(ours, theirs),
        env::resolved(value, first, ours).error is None,
        env::resolved(value, second, theirs).error is None,
    ensures
        env::resolved(value, first, ours).names == env::resolved(value, second, theirs).names,
    decreases value, 0int,
{
    match value {
        ValueView::Text(text) => {
            assert(ours.contains_key(text) == theirs.contains_key(text));
        },
        ValueView::Array(items) => {
            lemma_items_same_names(items, items.len(), first, second, ours, theirs);
        },
        ValueView::Table(entries) => {
            lemma_entries_same_names(entries, entries.len(), first, second, ours, theirs);
        },
        _ => {},
    }
}

proof fn lemma_items_same_names(
    items: Seq<ValueView>,
    count: nat,
    first: Holdings,
    second: Holdings,
    ours: Stands,
    theirs: Stands,
)
    requires
        count <= items.len(),
        same_variables(ours, theirs),
        env::resolved_items(items, count, first, ours).error is None,
        env::resolved_items(items, count, second, theirs).error is None,
    ensures
        env::resolved_items(items, count, first, ours).names == env::resolved_items(
            items,
            count,
            second,
            theirs,
        ).names,
    decreases items, count,
{
    if count > 0 {
        lemma_items_same_names(items, (count - 1) as nat, first, second, ours, theirs);
        lemma_same_names(items[count - 1], first, second, ours, theirs);
    }
}

proof fn lemma_entries_same_names(
    entries: Seq<(Seq<char>, ValueView)>,
    count: nat,
    first: Holdings,
    second: Holdings,
    ours: Stands,
    theirs: Stands,
)
    requires
        count <= entries.len(),
        same_variables(ours, theirs),
        env::resolved_entries(entries, count, first, ours).error is None,
        env::resolved_entries(entries, count, second, theirs).error is None,
    ensures
        env::resolved_entries(entries, count, first, ours).names == env::resolved_entries(
            entries,
            count,
            second,
            theirs,
        ).names,
    decreases entries, count,
{
    if count > 0 {
        lemma_entries_same_names(entries, (count - 1) as nat, first, second, ours, theirs);
        lemma_same_names(entries[count - 1].1, first, second, ours, theirs);
    }
}

/// Where no variable is put in, a document resolves to what is read from it.
pub proof fn law_nothing_put_in_changes_nothing(document: Seq<char>, holdings: Holdings)
    requires
        env::resolution(document, holdings) is Ok,
        env::resolution(document, holdings)->Ok_0.1 == Set::<Seq<char>>::empty(),
    ensures
        env::resolution(document, holdings)->Ok_0.0 == root_read(document),
{
    let stands = document_stands(document, holdings)->Ok_0;
    lemma_nothing_put_in(root_read(document), holdings, stands);
}

proof fn lemma_nothing_put_in(value: ValueView, holdings: Holdings, stands: Stands)
    requires
        env::resolved(value, holdings, stands).error is None,
        env::resolved(value, holdings, stands).names == Set::<Seq<char>>::empty(),
    ensures
        env::resolved(value, holdings, stands).value == value,
    decreases value, 0int,
{
    match value {
        ValueView::Text(text) => {
            if stands.contains_key(text) {
                assert(env::resolved(value, holdings, stands).names.contains(stands[text].0));
            } else if let Some(name) = mask::quoted_name(text) {
                assert(env::resolved(value, holdings, stands).names.contains(name));
            }
        },
        ValueView::Array(items) => {
            lemma_items_nothing_put_in(items, items.len(), holdings, stands);
        },
        ValueView::Table(entries) => {
            lemma_entries_nothing_put_in(entries, entries.len(), holdings, stands);
        },
        _ => {},
    }
}

/// The parts of an empty union are empty.
pub(crate) proof fn lemma_empty_union(first: Set<Seq<char>>, second: Set<Seq<char>>)
    requires
        first.union(second) == Set::<Seq<char>>::empty(),
    ensures
        first == Set::<Seq<char>>::empty(),
        second == Set::<Seq<char>>::empty(),
{
    assert forall|name: Seq<char>| !first.contains(name) && !second.contains(name) by {
        assert(first.union(second).contains(name) == (first.contains(name) || second.contains(
            name,
        )));
    }
    assert(first =~= Set::<Seq<char>>::empty());
    assert(second =~= Set::<Seq<char>>::empty());
}

proof fn lemma_items_nothing_put_in(
    items: Seq<ValueView>,
    count: nat,
    holdings: Holdings,
    stands: Stands,
)
    requires
        count <= items.len(),
        env::resolved_items(items, count, holdings, stands).error is None,
        env::resolved_items(items, count, holdings, stands).names == Set::<Seq<char>>::empty(),
    ensures
        env::resolved_items(items, count, holdings, stands).value == items,
    decreases items, count,
{
    if count > 0 {
        let before = (count - 1) as nat;
        lemma_empty_union(
            env::resolved_items(items, before, holdings, stands).names,
            env::resolved(items[count - 1], holdings, stands).names,
        );
        lemma_items_nothing_put_in(items, before, holdings, stands);
        lemma_nothing_put_in(items[count - 1], holdings, stands);
        assert(items.update(count - 1, items[count - 1]) =~= items);
    }
}

proof fn lemma_entries_nothing_put_in(
    entries: Seq<(Seq<char>, ValueView)>,
    count: nat,
    holdings: Holdings,
    stands: Stands,
)
    requires
        count <= entries.len(),
        env::resolved_entries(entries, count, holdings, stands).error is None,
        env::resolved_entries(entries, count, holdings, stands).names == Set::<Seq<char>>::empty(),
    ensures
        env::resolved_entries(entries, count, holdings, stands).value == entries,
    decreases entries, count,
{
    if count > 0 {
        let before = (count - 1) as nat;
        lemma_empty_union(
            env::resolved_entries(entries, before, holdings, stands).names,
            env::resolved(entries[count - 1].1, holdings, stands).names,
        );
        lemma_entries_nothing_put_in(entries, before, holdings, stands);
        lemma_nothing_put_in(entries[count - 1].1, holdings, stands);
        assert(entries.update(count - 1, entries[count - 1]) =~= entries);
    }
}

} // verus!
