//! What reading promises of every document.
use vstd::prelude::*;

use crate::document::{self, ValueView};
use crate::env::{self, Holdings, Outcome, ResolveErrorView, Stands};
use crate::reading;
use crate::{env_laws, mask, mask_laws, text};

verus! {

/// The text is one of the value's texts.
pub open spec fn holds_text(value: ValueView, text: Seq<char>) -> bool
    decreases value,
{
    match value {
        ValueView::Text(own) => own == text,
        ValueView::Array(items) => exists|i: int|
            0 <= i < items.len() && holds_text(#[trigger] items[i], text),
        ValueView::Table(entries) => exists|i: int|
            0 <= i < entries.len() && holds_text((#[trigger] entries[i]).1, text),
        _ => false,
    }
}

/// What stands in one of the parts of a text stands in the text.
proof fn lemma_occurs_in_whole(first: Seq<char>, second: Seq<char>, needle: Seq<char>)
    requires
        text::occurs_in(first, needle) || text::occurs_in(second, needle),
    ensures
        text::occurs_in(first + second, needle),
{
    let whole = first + second;
    if text::occurs_in(first, needle) {
        let at = choose|at: int| text::occurs_at(first, needle, at);
        assert(whole.skip(at) =~= first.skip(at) + second);
        assert(needle =~= whole.skip(at).take(needle.len() as int)) by {
            assert(needle =~= first.skip(at).take(needle.len() as int));
        }
        assert(text::occurs_at(whole, needle, at));
    } else {
        let at = choose|at: int| text::occurs_at(second, needle, at);
        assert(whole.skip(first.len() + at) =~= second.skip(at));
        assert(text::occurs_at(whole, needle, first.len() + at));
    }
}

/// What stands in a text of a value stands in its words.
proof fn lemma_words_hold(value: ValueView, text: Seq<char>, needle: Seq<char>)
    requires
        holds_text(value, text),
        text::occurs_in(text, needle),
    ensures
        text::occurs_in(reading::words(value), needle),
    decreases value, 0int,
{
    match value {
        ValueView::Text(_) => {
            lemma_occurs_in_whole(seq!['\n'], text, needle);
        },
        ValueView::Array(items) => {
            lemma_items_hold(items, items.len(), text, needle);
        },
        ValueView::Table(entries) => {
            lemma_entries_hold(entries, entries.len(), text, needle);
        },
        _ => {},
    }
}

proof fn lemma_items_hold(items: Seq<ValueView>, count: nat, text: Seq<char>, needle: Seq<char>)
    requires
        count <= items.len(),
        exists|i: int| 0 <= i < count && holds_text(#[trigger] items[i], text),
        text::occurs_in(text, needle),
    ensures
        text::occurs_in(reading::item_words(items, count), needle),
    decreases items, count,
{
    let before = (count - 1) as nat;
    if holds_text(items[count - 1], text) {
        lemma_words_hold(items[count - 1], text, needle);
    } else {
        lemma_items_hold(items, before, text, needle);
    }
    lemma_occurs_in_whole(
        reading::item_words(items, before),
        reading::words(items[count - 1]),
        needle,
    );
}

proof fn lemma_entries_hold(
    entries: Seq<(Seq<char>, ValueView)>,
    count: nat,
    text: Seq<char>,
    needle: Seq<char>,
)
    requires
        count <= entries.len(),
        exists|i: int| 0 <= i < count && holds_text((#[trigger] entries[i]).1, text),
        text::occurs_in(text, needle),
    ensures
        text::occurs_in(reading::entry_words(entries, count), needle),
    decreases entries, count,
{
    let before = (count - 1) as nat;
    let (key, value) = entries[count - 1];
    let last = seq!['\n'] + key + reading::words(value);
    if holds_text(value, text) {
        lemma_words_hold(value, text, needle);
        lemma_occurs_in_whole(seq!['\n'] + key, reading::words(value), needle);
    } else {
        lemma_entries_hold(entries, before, text, needle);
    }
    lemma_occurs_in_whole(reading::entry_words(entries, before), last, needle);
}

/// The second prefix occurs in no text that was read with the first.
proof fn lemma_second_prefix(document: Seq<char>, root: ValueView, text: Seq<char>)
    requires
        holds_text(root, text),
    ensures
        !text::occurs_in(text, reading::second_prefix(document, root)),
{
    let known = document + reading::words(root);
    let prefix = reading::second_prefix(document, root);
    let suffix = mask_laws::law_fresh_prefix_exists(known);
    if text::occurs_in(text, prefix) {
        lemma_words_hold(root, text, prefix);
        lemma_occurs_in_whole(document, reading::words(root), prefix);
    }
}

/// A text that is read from a document whichever of the two prefixes the markers
/// have is the document's own. It holds no prefix of the markers that are used,
/// so that it is no marker, and unless it is a placeholder it stays as it is.
pub proof fn law_own_texts_stay(
    document: Seq<char>,
    first: ValueView,
    second: ValueView,
    text: Seq<char>,
    holdings: Holdings,
    stands: Stands,
)
    requires
        document::toml_document(mask::masked_document(document)) == Ok::<
            ValueView,
            toml::de::Error,
        >(first),
        document::toml_document(
            mask::masked_with(document, reading::second_prefix(document, first)),
        ) == Ok::<ValueView, toml::de::Error>(second),
        holds_text(first, text),
        holds_text(second, text),
        env_laws::document_stands(document, holdings) == Ok::<Stands, ResolveErrorView>(stands),
    ensures
        mask::document_names(document).len() > 0 ==> !text::occurs_in(
            text,
            env_laws::prefix_used(document),
        ),
        !stands.contains_key(text),
        mask::quoted_name(text) is None ==> env::resolved(ValueView::Text(text), holdings, stands)
            == (Outcome {
            value: ValueView::Text(text),
            names: Set::<Seq<char>>::empty(),
            error: None::<ResolveErrorView>,
        }),
{
    let prefix = env_laws::prefix_used(document);
    let placeholders = mask::placeholders_with(document, prefix);
    if mask::document_names(document).len() > 0 {
        lemma_second_prefix(document, first, text);
        if text::occurs_in(text, mask::fresh_prefix(document)) {
            lemma_words_hold(second, text, mask::fresh_prefix(document));
        }
    }
    if stands.contains_key(text) {
        env_laws::lemma_markers_are_placeholders(placeholders, holdings, stands, text);
        let index = choose|index: int|
            0 <= index < placeholders.len() && (#[trigger] placeholders[index]).0 == text;
        assert(text == mask::marker(prefix, index as nat));
        assert(prefix =~= text.skip(0).take(prefix.len() as int));
        assert(text::occurs_at(text, prefix, 0));
    }
}

/// A document without dollar signs has no bare placeholder.
proof fn lemma_no_dollar_no_names(state: mask::State, rest: Seq<char>)
    requires
        !rest.contains('$'),
    ensures
        mask::bare_names(mask::pieces(state, rest)).len() == 0,
    decreases rest.len(),
{
    if rest.len() > 0 {
        mask::lemma_first_piece(state, rest);
        let (piece, next) = mask::first_piece(state, rest);
        let later = rest.skip(piece.source().len() as int);
        if let mask::Piece::Bare(name) = piece {
            assert(mask::placeholder_of(name)[0] == '$');
            assert(rest[0] == '$');
        }
        assert forall|character: char| later.contains(character) implies rest.contains(
            character,
        ) by {
            let at = choose|at: int| 0 <= at < later.len() && later[at] == character;
            assert(rest[at + piece.source().len()] == character);
        }
        lemma_no_dollar_no_names(next, later);
        mask::lemma_step(state, rest, Seq::empty(), 0);
    }
}

/// A document without dollar signs is read as it is.
pub(crate) proof fn lemma_no_dollar_is_read(document: Seq<char>)
    requires
        !document.contains('$'),
    ensures
        mask::document_names(document).len() == 0,
        reading::reading(document) == match document::toml_document(document) {
            Ok(root) => Ok::<(Seq<char>, ValueView), toml::de::Error>(
                (mask::fresh_prefix(document), root),
            ),
            Err(error) => Err(error),
        },
{
    lemma_no_dollar_no_names(mask::State::Document, document);
    mask_laws::law_nothing_to_mask(document);
}

/// A value whose texts draw on a source without dollar signs has no placeholder.
proof fn lemma_no_dollar_no_reference(value: ValueView, source: Seq<char>)
    requires
        document::draws_on(value, source),
        !source.contains('$'),
    ensures
        !env_laws::refers(value, Map::empty()),
    decreases value,
{
    match value {
        ValueView::Text(text) => {
            if mask::quoted_name(text) is Some {
                assert(text[0] == '$');
            }
        },
        ValueView::Array(items) => {
            assert forall|i: int| 0 <= i < items.len() implies !env_laws::refers(
                #[trigger] items[i],
                Map::empty(),
            ) by {
                lemma_no_dollar_no_reference(items[i], source);
            }
        },
        ValueView::Table(entries) => {
            assert forall|i: int| 0 <= i < entries.len() implies !env_laws::refers(
                (#[trigger] entries[i]).1,
                Map::empty(),
            ) by {
                lemma_no_dollar_no_reference(entries[i].1, source);
            }
        },
        _ => {},
    }
}

/// A document without dollar signs resolves to what is read from it, with no
/// variable put in, whatever the variables, where what is read draws on the
/// document alone; and where it cannot be read, it is refused as it is.
pub proof fn law_without_dollar_signs_nothing_is_put_in(document: Seq<char>, holdings: Holdings)
    requires
        !document.contains('$'),
        document::toml_document(document) matches Ok(root) ==> document::draws_on(root, document),
    ensures
        mask::document_names(document).len() == 0,
        env::resolution(document, holdings) == match document::toml_document(document) {
            Ok(root) => Ok::<(ValueView, Set<Seq<char>>), ResolveErrorView>(
                (root, Set::<Seq<char>>::empty()),
            ),
            Err(error) => Err(ResolveErrorView::Document(error)),
        },
{
    lemma_no_dollar_is_read(document);
    if let Ok(root) = document::toml_document(document) {
        lemma_no_dollar_no_reference(root, document);
        env_laws::law_plain_document_is_read_as_it_is(document, root, holdings);
    }
}

/// A text or a key of the value holds the needle.
pub open spec fn shows(value: ValueView, needle: Seq<char>) -> bool
    decreases value,
{
    match value {
        ValueView::Text(text) => text::occurs_in(text, needle),
        ValueView::Array(items) => exists|i: int|
            0 <= i < items.len() && shows(#[trigger] items[i], needle),
        ValueView::Table(entries) => exists|i: int|
            0 <= i < entries.len() && (text::occurs_in((#[trigger] entries[i]).0, needle) || shows(
                entries[i].1,
                needle,
            )),
        _ => false,
    }
}

/// What a text holds whose second part starts on a line of its own, one of the
/// two parts holds.
proof fn lemma_occurs_in_part(first: Seq<char>, second: Seq<char>, needle: Seq<char>)
    requires
        second.len() == 0 || second[0] == '\n',
        needle.len() > 0,
        !needle.contains('\n'),
        text::occurs_in(first + second, needle),
    ensures
        text::occurs_in(first, needle) || text::occurs_in(second, needle),
{
    let whole = first + second;
    let at = choose|at: int| text::occurs_at(whole, needle, at);
    let end = at + needle.len();
    assert(needle =~= whole.skip(at).take(needle.len() as int));
    assert(forall|i: int| 0 <= i < needle.len() ==> needle[i] == whole[at + i]);
    if end <= first.len() {
        assert(needle =~= first.skip(at).take(needle.len() as int));
        assert(text::occurs_at(first, needle, at));
    } else if at >= first.len() {
        assert(second.skip(at - first.len()) =~= whole.skip(at));
        assert(text::occurs_at(second, needle, at - first.len()));
    } else {
        assert(needle[first.len() - at] == whole[first.len() as int]);
        assert(needle.contains('\n'));
    }
}

/// The words of a value start with a line of their own.
proof fn lemma_words_start(value: ValueView)
    ensures
        reading::words(value).len() == 0 || reading::words(value)[0] == '\n',
    decreases value, 0int,
{
    match value {
        ValueView::Array(items) => {
            lemma_item_words_start(items, items.len());
        },
        ValueView::Table(entries) => {
            lemma_entry_words_start(entries, entries.len());
        },
        _ => {},
    }
}

proof fn lemma_item_words_start(items: Seq<ValueView>, count: nat)
    ensures
        reading::item_words(items, count).len() == 0 || reading::item_words(items, count)[0]
            == '\n',
    decreases items, count,
{
    if 0 < count <= items.len() {
        lemma_item_words_start(items, (count - 1) as nat);
        lemma_words_start(items[count - 1]);
    }
}

proof fn lemma_entry_words_start(entries: Seq<(Seq<char>, ValueView)>, count: nat)
    ensures
        reading::entry_words(entries, count).len() == 0 || reading::entry_words(entries, count)[0]
            == '\n',
    decreases entries, count,
{
    if 0 < count <= entries.len() {
        lemma_entry_words_start(entries, (count - 1) as nat);
    }
}

/// The words of a value hold what its texts and keys hold, and nothing else that
/// fits on a line.
pub proof fn law_words_hold_the_texts_and_keys(value: ValueView, needle: Seq<char>)
    requires
        needle.len() > 0,
        !needle.contains('\n'),
    ensures
        text::occurs_in(reading::words(value), needle) <==> shows(value, needle),
    decreases value, 0int,
{
    match value {
        ValueView::Text(text) => {
            if text::occurs_in(text, needle) {
                lemma_occurs_in_whole(seq!['\n'], text, needle);
            }
            if text::occurs_in(seq!['\n'] + text, needle) {
                lemma_occurs_after_line(text, needle);
            }
        },
        ValueView::Array(items) => {
            lemma_item_words_hold(items, items.len(), needle);
        },
        ValueView::Table(entries) => {
            lemma_entry_words_hold(entries, entries.len(), needle);
        },
        _ => {
            lemma_nothing_occurs(needle);
        },
    }
}

proof fn lemma_nothing_occurs(needle: Seq<char>)
    requires
        needle.len() > 0,
    ensures
        !text::occurs_in(Seq::empty(), needle),
{
}

/// What a line holds is in what follows its start.
proof fn lemma_occurs_after_line(text: Seq<char>, needle: Seq<char>)
    requires
        needle.len() > 0,
        !needle.contains('\n'),
        text::occurs_in(seq!['\n'] + text, needle),
    ensures
        text::occurs_in(text, needle),
{
    let whole = seq!['\n'] + text;
    let at = choose|at: int| text::occurs_at(whole, needle, at);
    assert(needle =~= whole.skip(at).take(needle.len() as int));
    if at == 0 {
        assert(needle[0] == whole[0]);
        assert(needle.contains('\n'));
    }
    assert(text.skip(at - 1) =~= whole.skip(at));
    assert(text::occurs_at(text, needle, at - 1));
}

proof fn lemma_item_words_hold(items: Seq<ValueView>, count: nat, needle: Seq<char>)
    requires
        count <= items.len(),
        needle.len() > 0,
        !needle.contains('\n'),
    ensures
        text::occurs_in(reading::item_words(items, count), needle) <==> exists|i: int|
            0 <= i < count && shows(#[trigger] items[i], needle),
    decreases items, count,
{
    if count == 0 {
        lemma_nothing_occurs(needle);
    } else {
        let before = reading::item_words(items, (count - 1) as nat);
        let own = reading::words(items[count - 1]);
        lemma_item_words_hold(items, (count - 1) as nat, needle);
        law_words_hold_the_texts_and_keys(items[count - 1], needle);
        lemma_words_start(items[count - 1]);
        if text::occurs_in(before + own, needle) {
            lemma_occurs_in_part(before, own, needle);
            if text::occurs_in(own, needle) {
                assert(shows(items[count - 1], needle));
            }
        }
        if exists|i: int| 0 <= i < count && shows(#[trigger] items[i], needle) {
            let i = choose|i: int| 0 <= i < count && shows(#[trigger] items[i], needle);
            if i < count - 1 {
                assert(text::occurs_in(before, needle));
            }
            lemma_occurs_in_whole(before, own, needle);
        }
    }
}

proof fn lemma_entry_words_hold(
    entries: Seq<(Seq<char>, ValueView)>,
    count: nat,
    needle: Seq<char>,
)
    requires
        count <= entries.len(),
        needle.len() > 0,
        !needle.contains('\n'),
    ensures
        text::occurs_in(reading::entry_words(entries, count), needle) <==> exists|i: int|
            0 <= i < count && (text::occurs_in((#[trigger] entries[i]).0, needle) || shows(
                entries[i].1,
                needle,
            )),
    decreases entries, count,
{
    if count == 0 {
        lemma_nothing_occurs(needle);
    } else {
        let (key, value) = entries[count - 1];
        let before = reading::entry_words(entries, (count - 1) as nat);
        let line = seq!['\n'] + key;
        let own = reading::words(value);
        lemma_entry_words_hold(entries, (count - 1) as nat, needle);
        law_words_hold_the_texts_and_keys(value, needle);
        lemma_words_start(value);
        if text::occurs_in(before + (line + own), needle) {
            lemma_occurs_in_part(before, line + own, needle);
            if text::occurs_in(line + own, needle) {
                lemma_occurs_in_part(line, own, needle);
                if text::occurs_in(line, needle) {
                    lemma_occurs_after_line(key, needle);
                }
                assert(text::occurs_in(entries[count - 1].0, needle) || shows(
                    entries[count - 1].1,
                    needle,
                ));
            }
        }
        if exists|i: int|
            0 <= i < count && (text::occurs_in((#[trigger] entries[i]).0, needle) || shows(
                entries[i].1,
                needle,
            )) {
            let i = choose|i: int|
                0 <= i < count && (text::occurs_in((#[trigger] entries[i]).0, needle) || shows(
                    entries[i].1,
                    needle,
                ));
            if i < count - 1 {
                assert(text::occurs_in(before, needle));
            } else {
                if text::occurs_in(key, needle) {
                    lemma_occurs_in_whole(seq!['\n'], key, needle);
                }
                lemma_occurs_in_whole(line, own, needle);
            }
            lemma_occurs_in_whole(before, line + own, needle);
        }
    }
}

/// A prefix fits on a line.
proof fn lemma_prefix_fits(suffix: nat)
    ensures
        mask::env_prefix(suffix).len() > 0,
        !mask::env_prefix(suffix).contains('\n'),
{
    reveal_strlit("__RET2SHELL_ENV_");
    crate::mask_twice::lemma_prefix_is_plain(suffix);
    let prefix = mask::env_prefix(suffix);
    if prefix.contains('\n') {
        let at = choose|at: int| 0 <= at < prefix.len() && prefix[at] == '\n';
        assert(mask::continues_name(prefix[at]));
    }
}

/// The prefix of the second reading is `__RET2SHELL_ENV_`, a number and an
/// underscore, for the least number with which it stands neither in the document
/// nor in a text or key that was read at first.
pub proof fn law_second_prefix_is_new_and_least(document: Seq<char>, root: ValueView) -> (suffix:
    nat)
    ensures
        reading::second_prefix(document, root) == "__RET2SHELL_ENV_"@ + text::decimal_digits(suffix)
            + seq!['_'],
        !text::occurs_in(document, reading::second_prefix(document, root)),
        !shows(root, reading::second_prefix(document, root)),
        forall|smaller: nat|
            smaller < suffix ==> {
                let taken = "__RET2SHELL_ENV_"@ + #[trigger] text::decimal_digits(smaller)
                    + seq!['_'];
                text::occurs_in(document, taken) || shows(root, taken)
            },
{
    let known = document + reading::words(root);
    let suffix = crate::scan_laws::law_prefix_is_new_and_least(known);
    let prefix = reading::second_prefix(document, root);
    lemma_prefix_fits(suffix);
    lemma_words_start(root);
    law_words_hold_the_texts_and_keys(root, prefix);
    if text::occurs_in(document, prefix) || text::occurs_in(reading::words(root), prefix) {
        lemma_occurs_in_whole(document, reading::words(root), prefix);
    }
    assert forall|smaller: nat| smaller < suffix implies {
        let taken = "__RET2SHELL_ENV_"@ + #[trigger] text::decimal_digits(smaller) + seq!['_'];
        text::occurs_in(document, taken) || shows(root, taken)
    } by {
        let taken = "__RET2SHELL_ENV_"@ + text::decimal_digits(smaller) + seq!['_'];
        assert(taken == mask::env_prefix(smaller));
        lemma_prefix_fits(smaller);
        lemma_occurs_in_part(document, reading::words(root), taken);
        law_words_hold_the_texts_and_keys(root, taken);
    }
    suffix
}

/// A document is read with the markers of its fresh prefix. Where it has bare
/// placeholders, and a text or key that is read with the second prefix holds the
/// first, it is read with the second.
pub proof fn law_how_documents_are_read(document: Seq<char>, root: ValueView)
    requires
        document::toml_document(mask::masked_document(document)) == Ok::<
            ValueView,
            toml::de::Error,
        >(root),
    ensures
        ({
            let first = mask::fresh_prefix(document);
            let second = reading::second_prefix(document, root);
            match document::toml_document(mask::masked_with(document, second)) {
                Ok(other) => if mask::document_names(document).len() > 0 && shows(other, first) {
                    reading::reading(document) == Ok::<(Seq<char>, ValueView), toml::de::Error>(
                        (second, other),
                    )
                } else {
                    reading::reading(document) == Ok::<(Seq<char>, ValueView), toml::de::Error>(
                        (first, root),
                    )
                },
                Err(_) => reading::reading(document) == Ok::<
                    (Seq<char>, ValueView),
                    toml::de::Error,
                >((first, root)),
            }
        }),
{
    let second = reading::second_prefix(document, root);
    let suffix = mask_laws::law_fresh_prefix_exists(document);
    lemma_prefix_fits(suffix);
    if let Ok(other) = document::toml_document(mask::masked_with(document, second)) {
        law_words_hold_the_texts_and_keys(other, mask::fresh_prefix(document));
    }
}

/// Where the document cannot be read with the markers of its fresh prefix, that
/// is the error of reading it, and there is no other.
pub proof fn law_when_documents_cannot_be_read(document: Seq<char>, error: toml::de::Error)
    ensures
        reading::reading(document) == Err::<(Seq<char>, ValueView), toml::de::Error>(error)
            <==> document::toml_document(mask::masked_document(document)) == Err::<
            ValueView,
            toml::de::Error,
        >(error),
{
}

} // verus!
