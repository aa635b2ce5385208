//! Reads a document whose bare placeholders are masked, so that no text of the
//! document itself can be taken for a marker.
use vstd::prelude::*;

use crate::document::{self, read_document, ConfigTable, ConfigValue, ValueView};
use crate::mask::{self, marker_prefix, mask_bare_placeholders, mask_with, Placeholder};
use crate::mask_laws;
use crate::text::{self, contains};

verus! {

/// The texts and keys of a value, each on a line of its own.
pub open spec fn words(value: ValueView) -> Seq<char>
    decreases value, 0int,
{
    match value {
        ValueView::Text(text) => seq!['\n'] + text,
        ValueView::Array(items) => item_words(items, items.len()),
        ValueView::Table(entries) => entry_words(entries, entries.len()),
        _ => Seq::empty(),
    }
}

/// Those of the first `count` items of an array.
pub open spec fn item_words(items: Seq<ValueView>, count: nat) -> Seq<char>
    decreases items, count,
{
    if count == 0 || count > items.len() {
        Seq::empty()
    } else {
        item_words(items, (count - 1) as nat) + words(items[count - 1])
    }
}

/// Those of the first `count` entries of a table.
pub open spec fn entry_words(entries: Seq<(Seq<char>, ValueView)>, count: nat) -> Seq<char>
    decreases entries, count,
{
    if count == 0 || count > entries.len() {
        Seq::empty()
    } else {
        entry_words(entries, (count - 1) as nat) + (seq!['\n'] + entries[count - 1].0 + words(
            entries[count - 1].1,
        ))
    }
}

/// Adds the texts and keys of a value to a text.
fn push_words(value: &ConfigValue, target: &mut String)
    ensures
        final(target)@ == old(target)@ + words(value@),
    decreases value,
{
    match value {
        ConfigValue::Text(text) => {
            target.push('\n');
            target.append(text.as_str());
        },
        ConfigValue::Array(items) => {
            let ghost views = value@->Array_0;
            let ghost start = target@;
            let mut index: usize = 0;
            assert(views.len() == items@.len());
            while index < items.len()
                invariant
                    value matches ConfigValue::Array(own) && own == items,
                    value@ == ValueView::Array(views),
                    views.len() == items@.len(),
                    index <= items@.len(),
                    target@ == start + item_words(views, index as nat),
                decreases items@.len() - index,
            {
                assert(views[index as int] == items@[index as int]@);
                push_words(&items[index], target);
                index = index + 1;
                assert(target@ =~= start + item_words(views, index as nat));
            }
        },
        ConfigValue::Table(table) => {
            push_table_words(table, target);
        },
        _ => {
            assert(target@ =~= old(target)@ + words(value@));
        },
    }
}

/// Adds the texts and keys of a table to a text.
fn push_table_words(table: &ConfigTable, target: &mut String)
    ensures
        final(target)@ == old(target)@ + words(ValueView::Table(table@)),
    decreases table,
{
    let ghost views = table@;
    let ghost start = target@;
    let mut index: usize = 0;
    while index < table.entries.len()
        invariant
            views == table@,
            index <= table.entries@.len(),
            target@ == start + entry_words(views, index as nat),
        decreases table.entries@.len() - index,
    {
        let entry = &table.entries[index];
        assert(views[index as int] == (entry.0@, entry.1@));
        target.push('\n');
        target.append(entry.0.as_str());
        push_words(&entry.1, target);
        index = index + 1;
        assert(target@ =~= start + entry_words(views, index as nat));
    }
}

/// The prefix for a second reading of a document, from which `root` was read at
/// first: one that occurs neither in the document nor in what was read.
pub open spec fn second_prefix(document: Seq<char>, root: ValueView) -> Seq<char> {
    mask::fresh_prefix(document + words(root))
}

/// Of two readings of a document that has placeholders, each a prefix and what
/// was read with it, the one that counts: the first, unless a text of the
/// document itself, as the second reading shows, holds its prefix.
pub open spec fn chosen_reading(
    first: (Seq<char>, ValueView),
    second: (Seq<char>, ValueView),
) -> (Seq<char>, ValueView) {
    if text::occurs_in(words(second.1), first.0) {
        second
    } else {
        first
    }
}

/// How a document is read: the prefix of the markers that its bare placeholders
/// are masked by, and what is read then.
///
/// An escape can make a text of the document a marker that does not occur in
/// the document as it is written. So the document is read twice, with markers
/// of two prefixes, and that prefix is used that no text holds which is read
/// with the other. Should the second reading fail, the first counts.
pub open spec fn reading(document: Seq<char>) -> Result<(Seq<char>, ValueView), toml::de::Error> {
    match document::toml_document(mask::masked_document(document)) {
        Err(error) => Err(error),
        Ok(root) => {
            let first = (mask::fresh_prefix(document), root);
            let prefix = second_prefix(document, root);
            if mask::document_names(document).len() == 0 {
                Ok(first)
            } else {
                match document::toml_document(mask::masked_with(document, prefix)) {
                    Ok(other) => Ok(chosen_reading(first, (prefix, other))),
                    Err(_) => Ok(first),
                }
            }
        },
    }
}

/// Whether a text or a key of a table holds a prefix.
pub fn holds_prefix(table: &ConfigTable, prefix: &str) -> (result: bool)
    ensures
        result == text::occurs_in(words(ValueView::Table(table@)), prefix@),
{
    let mut all = String::new();
    push_table_words(table, &mut all);
    assert(all@ =~= words(ValueView::Table(table@)));
    contains(all.as_str(), prefix)
}

/// The prefix for a second reading of a document.
pub fn prefix_beside(document: &str, table: &ConfigTable) -> (prefix: String)
    ensures
        prefix@ == second_prefix(document@, ValueView::Table(table@)),
{
    let mut known = document.to_owned();
    push_table_words(table, &mut known);
    marker_prefix(known.as_str())
}

/// What was read from a masked document: its root table, with the placeholders
/// that are masked in it.
pub struct Reading {
    pub table: ConfigTable,
    pub placeholders: Vec<Placeholder>,
}

/// Of two readings the one that counts, where the markers of the first have the
/// given prefix.
pub fn choose_reading(prefix: &str, first: Reading, second: Reading) -> (chosen: Reading)
    ensures
        chosen == if text::occurs_in(words(ValueView::Table(second.table@)), prefix@) {
            second
        } else {
            first
        },
{
    if holds_prefix(&second.table, prefix) {
        second
    } else {
        first
    }
}

/// Reads a document with its bare placeholders masked, and lists those.
pub fn read_masked(document: &str) -> (result: Result<Reading, toml::de::Error>)
    ensures
        match result {
            Ok(read) => {
                &&& reading(document@) matches Ok((prefix, root))
                &&& root == ValueView::Table(read.table@)
                &&& root.well_formed()
                &&& mask::placeholder_views(read.placeholders@) == mask::placeholders_with(
                    document@,
                    prefix,
                )
                &&& mask::document_names(document@).len() == 0 && !document@.contains('\\')
                    ==> document::draws_on(root, document@)
            },
            Err(error) => reading(document@) == Err::<(Seq<char>, ValueView), toml::de::Error>(
                error,
            ),
        },
{
    let prefix = marker_prefix(document);
    let (masked, placeholders) = mask_bare_placeholders(document);
    let first = match read_document(masked.as_str()) {
        Ok(table) => Reading { table, placeholders },
        Err(error) => {
            return Err(error);
        },
    };
    if first.placeholders.len() == 0 {
        proof {
            mask_laws::law_nothing_to_mask(document@);
        }
        return Ok(first);
    }
    let other = prefix_beside(document, &first.table);
    let (masked, placeholders) = mask_with(document, other.as_str());
    match read_document(masked.as_str()) {
        Ok(table) => Ok(
            choose_reading(prefix.as_str(), first, Reading { table, placeholders }),
        ),
        Err(_) => Ok(first),
    }
}

} // verus!
