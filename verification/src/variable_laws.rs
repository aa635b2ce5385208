//! What looking variables up and reading values from them promises.
use vstd::prelude::*;

use crate::document::{self, ValueView};
use crate::env::{self, Holdings, ResolveErrorView, Stands, Variable};

verus! {

/// What was given of a variable is what is looked up, unchanged: the text of the
/// last one with its name, or that it is not valid UTF-8.
pub proof fn law_lookup_gives_what_was_set(variables: Seq<Variable>, index: int, name: Seq<char>)
    requires
        0 <= index < variables.len(),
        variables[index].name matches Some(own) && own@ == name,
        forall|i: int|
            index < i < variables.len() ==> !((#[trigger] variables[i]).name matches Some(other)
                && other@ == name),
    ensures
        env::holdings_of(variables).contains_key(name),
        match variables[index].value {
            Some(held) => env::holdings_of(variables)[name] == Some(held@) && env::lookup(
                env::holdings_of(variables),
                name,
            ) == Ok::<Seq<char>, ResolveErrorView>(held@),
            None => env::holdings_of(variables)[name] is None && env::lookup(
                env::holdings_of(variables),
                name,
            ) == Err::<Seq<char>, ResolveErrorView>(ResolveErrorView::NotUnicode(name)),
        },
    decreases variables.len(),
{
    let earlier = variables.drop_last();
    let last = variables.len() - 1;
    assert(variables[last] == variables.last());
    assert(forall|i: int| 0 <= i < last ==> earlier[i] == variables[i]);
    if index < last {
        law_lookup_gives_what_was_set(earlier, index, name);
    }
}

/// A name that no variable has is not found.
pub proof fn law_lookup_finds_nothing_else(variables: Seq<Variable>, name: Seq<char>)
    requires
        forall|i: int|
            0 <= i < variables.len() ==> !((#[trigger] variables[i]).name matches Some(other)
                && other@ == name),
    ensures
        !env::holdings_of(variables).contains_key(name),
        env::lookup(env::holdings_of(variables), name) == Err::<Seq<char>, ResolveErrorView>(
            ResolveErrorView::NotFound(name),
        ),
    decreases variables.len(),
{
    if variables.len() > 0 {
        let earlier = variables.drop_last();
        let last = variables.len() - 1;
        assert(variables[last] == variables.last());
        assert(forall|i: int| 0 <= i < last ==> earlier[i] == variables[i]);
        law_lookup_finds_nothing_else(earlier, name);
    }
}

/// Looking up in any holdings: the text as it is held, or which of the two ways
/// there is none.
pub proof fn law_lookup_is_exact(holdings: Holdings, name: Seq<char>, held: Seq<char>)
    ensures
        env::lookup(holdings.insert(name, Some(held)), name) == Ok::<Seq<char>, ResolveErrorView>(
            held,
        ),
        env::lookup(holdings.insert(name, None), name) == Err::<Seq<char>, ResolveErrorView>(
            ResolveErrorView::NotUnicode(name),
        ),
        env::lookup(holdings.remove(name), name) == Err::<Seq<char>, ResolveErrorView>(
            ResolveErrorView::NotFound(name),
        ),
{
}

/// The value that a variable stands for is the one that is read after `value = `,
/// unchanged.
pub proof fn law_values_are_read_as_they_are(
    name: Seq<char>,
    text: Seq<char>,
    entries: Seq<(Seq<char>, ValueView)>,
    value: ValueView,
)
    requires
        document::toml_document("value = "@ + text) == Ok::<ValueView, toml::de::Error>(
            ValueView::Table(entries),
        ),
        entries.len() == 1,
        entries[0] == ("value"@, value),
    ensures
        env::value_in(name, text) == Ok::<ValueView, ResolveErrorView>(value),
{
}

/// A text that is read as anything else than one value stands for none, and the
/// error tells the name of the variable.
pub proof fn law_other_texts_are_no_values(name: Seq<char>, text: Seq<char>)
    requires
        match document::toml_document("value = "@ + text) {
            Ok(ValueView::Table(entries)) => entries.len() != 1 || entries[0].0 != "value"@,
            _ => true,
        },
    ensures
        env::value_in(name, text) == Err::<ValueView, ResolveErrorView>(
            ResolveErrorView::InvalidValue(name),
        ),
{
}

/// What reading gave is checked in the same way: the sole value as it is, or the
/// name of the variable.
pub proof fn law_sole_values_are_handed_on(
    name: Seq<char>,
    key: Seq<char>,
    value: ValueView,
    entries: Seq<(Seq<char>, ValueView)>,
    error: toml::de::Error,
)
    ensures
        env::sole_value_of(name, Ok(ValueView::Table(seq![("value"@, value)]))) == Ok::<
            ValueView,
            ResolveErrorView,
        >(value),
        key != "value"@ ==> env::sole_value_of(name, Ok(ValueView::Table(seq![(key, value)])))
            == Err::<ValueView, ResolveErrorView>(ResolveErrorView::InvalidValue(name)),
        entries.len() != 1 ==> env::sole_value_of(name, Ok(ValueView::Table(entries))) == Err::<
            ValueView,
            ResolveErrorView,
        >(ResolveErrorView::InvalidValue(name)),
        env::sole_value_of(name, Err(error)) == Err::<ValueView, ResolveErrorView>(
            ResolveErrorView::InvalidValue(name),
        ),
{
}

/// Where every placeholder's variable is set to a value, each marker stands for
/// the name and the value of the last placeholder that has it, and nothing else
/// stands for anything.
pub proof fn law_markers_stand_for_values(
    placeholders: Seq<(Seq<char>, Seq<char>)>,
    holdings: Holdings,
    index: int,
    marker: Seq<char>,
)
    requires
        forall|i: int|
            0 <= i < placeholders.len() ==> env::lookup(
                holdings,
                (#[trigger] placeholders[i]).1,
            ) is Ok && env::value_in(
                placeholders[i].1,
                env::lookup(holdings, placeholders[i].1)->Ok_0,
            ) is Ok,
    ensures
        env::stands_for(placeholders, holdings) is Ok,
        0 <= index < placeholders.len() && placeholders[index].0 == marker && (forall|i: int|
            index < i < placeholders.len() ==> (#[trigger] placeholders[i]).0 != marker) ==> {
            let stands = env::stands_for(placeholders, holdings)->Ok_0;
            let name = placeholders[index].1;
            &&& stands.contains_key(marker)
            &&& stands[marker].0 == name
            &&& env::value_in(name, env::lookup(holdings, name)->Ok_0) == Ok::<
                ValueView,
                ResolveErrorView,
            >(stands[marker].1)
        },
        (forall|i: int|
            0 <= i < placeholders.len() ==> (#[trigger] placeholders[i]).0 != marker)
            ==> !env::stands_for(placeholders, holdings)->Ok_0.contains_key(marker),
    decreases placeholders.len(),
{
    if placeholders.len() > 0 {
        let earlier = placeholders.drop_last();
        let last = placeholders.len() - 1;
        assert(placeholders[last] == placeholders.last());
        assert(forall|i: int| 0 <= i < last ==> earlier[i] == placeholders[i]);
        law_markers_stand_for_values(earlier, holdings, index, marker);
    }
}

/// The first placeholder whose variable is not set to a value decides the error:
/// that of looking the variable up, else that of reading the value.
pub proof fn law_first_failing_placeholder_decides(
    placeholders: Seq<(Seq<char>, Seq<char>)>,
    holdings: Holdings,
    first: int,
)
    requires
        0 <= first < placeholders.len(),
        forall|i: int|
            0 <= i < first ==> env::lookup(
                holdings,
                (#[trigger] placeholders[i]).1,
            ) is Ok && env::value_in(
                placeholders[i].1,
                env::lookup(holdings, placeholders[i].1)->Ok_0,
            ) is Ok,
        env::lookup(holdings, placeholders[first].1) matches Ok(text) ==> env::value_in(
            placeholders[first].1,
            text,
        ) is Err,
    ensures
        match env::lookup(holdings, placeholders[first].1) {
            Err(error) => env::stands_for(placeholders, holdings) == Err::<
                Stands,
                ResolveErrorView,
            >(error),
            Ok(_) => env::stands_for(placeholders, holdings) == Err::<Stands, ResolveErrorView>(
                ResolveErrorView::InvalidValue(placeholders[first].1),
            ),
        },
    decreases placeholders.len(),
{
    let earlier = placeholders.drop_last();
    let last = placeholders.len() - 1;
    let name = placeholders[first].1;
    assert(placeholders[last] == placeholders.last());
    if first < last {
        assert(forall|i: int| 0 <= i < last ==> earlier[i] == placeholders[i]);
        law_first_failing_placeholder_decides(earlier, holdings, first);
    } else {
        lemma_values_stand(earlier, holdings);
        if let Ok(text) = env::lookup(holdings, name) {
            assert(env::value_in(name, text) is Err);
        }
    }
}

proof fn lemma_values_stand(placeholders: Seq<(Seq<char>, Seq<char>)>, holdings: Holdings)
    requires
        forall|i: int|
            0 <= i < placeholders.len() ==> env::lookup(
                holdings,
                (#[trigger] placeholders[i]).1,
            ) is Ok && env::value_in(
                placeholders[i].1,
                env::lookup(holdings, placeholders[i].1)->Ok_0,
            ) is Ok,
    ensures
        env::stands_for(placeholders, holdings) is Ok,
    decreases placeholders.len(),
{
    if placeholders.len() > 0 {
        let earlier = placeholders.drop_last();
        let last = placeholders.len() - 1;
        assert(placeholders[last] == placeholders.last());
        assert forall|i: int| 0 <= i < earlier.len() implies env::lookup(
                holdings,
                (#[trigger] earlier[i]).1,
            ) is Ok && env::value_in(
                earlier[i].1,
                env::lookup(holdings, earlier[i].1)->Ok_0,
            ) is Ok by {
            assert(earlier[i] == placeholders[i]);
        }
        lemma_values_stand(earlier, holdings);
    }
}

} // verus!
