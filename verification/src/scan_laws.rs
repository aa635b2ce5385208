//! What masking promises of every part of a document: what is kept, what is
//! masked, and how what follows is read.
use vstd::prelude::*;

use crate::mask::{self, Piece, State};
use crate::{mask_laws, mask_twice, text};

verus! {

/// The name of a variable is made of ASCII letters, digits and underscores, has
/// one at least, and starts with no digit; every such text is one.
pub proof fn law_names(name: Seq<char>)
    ensures
        mask::is_name(name) <==> name.len() > 0 && !('0' <= name[0] <= '9') && forall|i: int|
            0 <= i < name.len() ==> name[i] == '_' || 'a' <= name[i] <= 'z' || 'A' <= name[i]
                <= 'Z' || '0' <= #[trigger] name[i] <= '9',
{
    if mask::is_name(name) {
        assert forall|i: int| 0 <= i < name.len() implies name[i] == '_' || 'a' <= name[i] <= 'z'
            || 'A' <= name[i] <= 'Z' || '0' <= #[trigger] name[i] <= '9' by {
            assert(mask::continues_name(name[i]));
        }
    }
}

/// The whole text is a placeholder if and only if it is a name between `${` and
/// `}`; and it starts with one if and only if it goes on after such a text.
pub proof fn law_placeholders(text: Seq<char>, name: Seq<char>, rest: Seq<char>)
    ensures
        mask::placeholder_of(name) == seq!['$', '{'] + name + seq!['}'],
        mask::quoted_name(text) == Some(name) <==> mask::is_name(name) && text == seq!['$', '{']
            + name + seq!['}'],
        mask::is_name(name) ==> mask::bare_name(seq!['$', '{'] + name + seq!['}'] + rest) == Some(
            name,
        ),
        mask::bare_name(text) == Some(name) ==> mask::is_name(name) && (seq!['$', '{'] + name
            + seq!['}']).is_prefix_of(text),
{
    mask_laws::law_quoted_placeholder_is_exact(text, name);
    mask_laws::law_bare_placeholder_is_exact(text, name);
    let whole = seq!['$', '{'] + name + seq!['}'];
    assert((whole + rest).take(whole.len() as int) =~= whole);
    mask_laws::law_bare_placeholder_is_exact(whole + rest, name);
}

/// A kept piece: what comes after it is read in the state after it.
proof fn lemma_kept_start(
    state: State,
    start: Seq<char>,
    rest: Seq<char>,
    next: State,
    prefix: Seq<char>,
    number: nat,
)
    requires
        start.len() > 0,
        mask::first_piece(state, start + rest) == (Piece::Kept(start), next),
    ensures
        mask::bare_names(mask::pieces(state, start + rest)) == mask::bare_names(
            mask::pieces(next, rest),
        ),
        mask::masked(mask::pieces(state, start + rest), prefix, number) == start + mask::masked(
            mask::pieces(next, rest),
            prefix,
            number,
        ),
{
    mask::lemma_step(state, start + rest, prefix, number);
    assert((start + rest).skip(start.len() as int) =~= rest);
}

/// Nothing is masked as nothing.
pub proof fn law_nothing_is_nothing(state: State, prefix: Seq<char>, number: nat)
    ensures
        mask::bare_names(mask::pieces(state, Seq::empty())).len() == 0,
        mask::masked(mask::pieces(state, Seq::empty()), prefix, number) == Seq::<char>::empty(),
{
}

/// Outside of strings and comments, text without quotes, number signs and dollar
/// signs is kept, and what follows it is masked as it would be alone.
pub proof fn law_plain_text_is_kept(
    before: Seq<char>,
    rest: Seq<char>,
    prefix: Seq<char>,
    number: nat,
)
    requires
        forall|i: int|
            0 <= i < before.len() ==> before[i] != '"' && before[i] != '\'' && before[i] != '#'
                && #[trigger] before[i] != '$',
    ensures
        mask::bare_names(mask::pieces(State::Document, before + rest)) == mask::bare_names(
            mask::pieces(State::Document, rest),
        ),
        mask::masked(mask::pieces(State::Document, before + rest), prefix, number) == before
            + mask::masked(mask::pieces(State::Document, rest), prefix, number),
    decreases before.len(),
{
    if before.len() == 0 {
        assert(before + rest =~= rest);
        let tail = mask::masked(mask::pieces(State::Document, rest), prefix, number);
        assert(before + tail =~= tail);
    } else {
        let first = seq![before[0]];
        let later = before.skip(1);
        let whole = before + rest;
        assert(before[0] != '$' && whole[0] == before[0]);
        assert forall|i: int| 0 <= i < later.len() implies later[i] != '"' && later[i] != '\''
            && later[i] != '#' && #[trigger] later[i] != '$' by {
            assert(later[i] == before[i + 1]);
        }
        law_plain_text_is_kept(later, rest, prefix, number);
        mask_twice::lemma_fence(whole);
        assert(whole =~= first + (later + rest));
        assert(whole.take(1) =~= first);
        assert(mask::bare_name(whole) is None) by {
            if seq!['$', '{'].is_prefix_of(whole) {
                assert(seq!['$', '{'][0] == whole[0]);
            }
        }
        lemma_kept_start(State::Document, first, later + rest, State::Document, prefix, number);
        let tail = mask::masked(mask::pieces(State::Document, rest), prefix, number);
        assert(first + (later + tail) =~= before + tail);
    }
}

/// Outside of strings and comments a placeholder is masked wherever it stands: it
/// becomes a string, the prefix with the number of placeholders before it, and
/// what follows is masked as it would be alone, with the next number.
pub proof fn law_placeholders_are_masked_wherever_they_stand(
    before: Seq<char>,
    name: Seq<char>,
    rest: Seq<char>,
    prefix: Seq<char>,
    number: nat,
)
    requires
        forall|i: int|
            0 <= i < before.len() ==> before[i] != '"' && before[i] != '\'' && before[i] != '#'
                && #[trigger] before[i] != '$',
        name.len() > 0 && !('0' <= name[0] <= '9'),
        forall|i: int|
            0 <= i < name.len() ==> name[i] == '_' || 'a' <= name[i] <= 'z' || 'A' <= name[i]
                <= 'Z' || '0' <= #[trigger] name[i] <= '9',
    ensures
        ({
            let text = before + seq!['$', '{'] + name + seq!['}'] + rest;
            let whole = mask::pieces(State::Document, text);
            let tail = mask::pieces(State::Document, rest);
            &&& mask::bare_names(whole) == seq![name] + mask::bare_names(tail)
            &&& mask::masked(whole, prefix, number) == before + seq!['"'] + prefix
                + text::decimal_digits(number) + seq!['"'] + mask::masked(tail, prefix, number + 1)
        }),
{
    let placeholder = seq!['$', '{'] + name + seq!['}'];
    let text = before + seq!['$', '{'] + name + seq!['}'] + rest;
    law_names(name);
    law_plain_text_is_kept(before, placeholder + rest, prefix, number);
    assert(text =~= before + (placeholder + rest));
    mask_laws::law_bare_placeholder_is_masked(name, rest, prefix, number);
    let later = mask::masked(mask::pieces(State::Document, rest), prefix, number + 1);
    let marker = seq!['"'] + mask::marker(prefix, number) + seq!['"'];
    assert(before + (marker + later) =~= before + seq!['"'] + prefix + text::decimal_digits(number)
        + seq!['"'] + later);
}

/// Outside of strings and comments a dollar sign that starts no placeholder is
/// kept.
pub proof fn law_other_dollar_signs_are_kept(rest: Seq<char>, prefix: Seq<char>, number: nat)
    requires
        rest.len() > 0 && rest[0] == '{' ==> forall|end: int|
            1 <= end < rest.len() && #[trigger] rest[end] == '}' ==> end == 1 || '0' <= rest[1]
                <= '9' || exists|i: int|
                1 <= i < end && !(rest[i] == '_' || 'a' <= rest[i] <= 'z' || 'A' <= rest[i] <= 'Z'
                    || '0' <= #[trigger] rest[i] <= '9'),
    ensures
        mask::bare_names(mask::pieces(State::Document, seq!['$'] + rest)) == mask::bare_names(
            mask::pieces(State::Document, rest),
        ),
        mask::masked(mask::pieces(State::Document, seq!['$'] + rest), prefix, number) == seq!['$']
            + mask::masked(mask::pieces(State::Document, rest), prefix, number),
{
    let whole = seq!['$'] + rest;
    assert(whole[0] == '$');
    mask_twice::lemma_fence(whole);
    assert(whole.take(1) =~= seq!['$']);
    if let Some(name) = mask::bare_name(whole) {
        mask_laws::law_bare_placeholder_is_exact(whole, name);
        law_names(name);
        let placeholder = mask::placeholder_of(name);
        let end = name.len() as int + 1;
        assert(forall|i: int| 0 <= i < placeholder.len() ==> whole[i] == placeholder[i]);
        assert(rest[0] == whole[1] && whole[1] == placeholder[1]);
        assert(rest[end] == whole[end + 1] && whole[end + 1] == placeholder[end + 1]);
        assert forall|i: int| 1 <= i < end implies rest[i] == name[i - 1] by {
            assert(rest[i] == whole[i + 1] && whole[i + 1] == placeholder[i + 1]);
        }
        let bad = choose|i: int|
            1 <= i < end && !(rest[i] == '_' || 'a' <= rest[i] <= 'z' || 'A' <= rest[i] <= 'Z'
                || '0' <= #[trigger] rest[i] <= '9');
        assert(name[bad - 1] == rest[bad]);
    }
    lemma_kept_start(State::Document, seq!['$'], rest, State::Document, prefix, number);
}

/// Outside of strings a number sign opens a comment.
pub proof fn law_number_signs_open_comments(rest: Seq<char>, prefix: Seq<char>, number: nat)
    ensures
        mask::bare_names(mask::pieces(State::Document, seq!['#'] + rest)) == mask::bare_names(
            mask::pieces(State::Comment, rest),
        ),
        mask::masked(mask::pieces(State::Document, seq!['#'] + rest), prefix, number) == seq!['#']
            + mask::masked(mask::pieces(State::Comment, rest), prefix, number),
{
    let start = seq!['#'];
    let whole = start + rest;
    mask_twice::lemma_fence(whole);
    assert(whole.take(start.len() as int) =~= start);
    assert(forall|i: int| 0 <= i < start.len() ==> whole[i] == start[i]);
    assert(forall|i: int| 0 <= i < rest.len() ==> whole[start.len() + i] == rest[i]);
    lemma_kept_start(State::Document, start, rest, State::Comment, prefix, number);
}

/// A comment goes on up to the end of the line.
pub proof fn law_comments_go_on(character: char, rest: Seq<char>, prefix: Seq<char>, number: nat)
    requires
        character != '\n',
    ensures
        mask::bare_names(mask::pieces(State::Comment, seq![character] + rest)) == mask::bare_names(
            mask::pieces(State::Comment, rest),
        ),
        mask::masked(mask::pieces(State::Comment, seq![character] + rest), prefix, number) == seq![character]
            + mask::masked(mask::pieces(State::Comment, rest), prefix, number),
{
    let start = seq![character];
    let whole = start + rest;
    mask_twice::lemma_fence(whole);
    assert(whole.take(start.len() as int) =~= start);
    assert(forall|i: int| 0 <= i < start.len() ==> whole[i] == start[i]);
    assert(forall|i: int| 0 <= i < rest.len() ==> whole[start.len() + i] == rest[i]);
    lemma_kept_start(State::Comment, start, rest, State::Comment, prefix, number);
}

/// The end of the line closes a comment.
pub proof fn law_line_ends_close_comments(rest: Seq<char>, prefix: Seq<char>, number: nat)
    ensures
        mask::bare_names(mask::pieces(State::Comment, seq!['\n'] + rest)) == mask::bare_names(
            mask::pieces(State::Document, rest),
        ),
        mask::masked(mask::pieces(State::Comment, seq!['\n'] + rest), prefix, number) == seq!['\n']
            + mask::masked(mask::pieces(State::Document, rest), prefix, number),
{
    let start = seq!['\n'];
    let whole = start + rest;
    mask_twice::lemma_fence(whole);
    assert(whole.take(start.len() as int) =~= start);
    assert(forall|i: int| 0 <= i < start.len() ==> whole[i] == start[i]);
    assert(forall|i: int| 0 <= i < rest.len() ==> whole[start.len() + i] == rest[i]);
    lemma_kept_start(State::Comment, start, rest, State::Document, prefix, number);
}

/// A double quote opens a basic string, unless two more follow.
pub proof fn law_quotes_open_basic_strings(rest: Seq<char>, prefix: Seq<char>, number: nat)
    requires
        rest.len() < 2 || rest[0] != '"' || rest[1] != '"',
    ensures
        mask::bare_names(mask::pieces(State::Document, seq!['"'] + rest)) == mask::bare_names(
            mask::pieces(State::BasicString, rest),
        ),
        mask::masked(mask::pieces(State::Document, seq!['"'] + rest), prefix, number) == seq!['"']
            + mask::masked(mask::pieces(State::BasicString, rest), prefix, number),
{
    let start = seq!['"'];
    let whole = start + rest;
    mask_twice::lemma_fence(whole);
    assert(whole.take(start.len() as int) =~= start);
    assert(forall|i: int| 0 <= i < start.len() ==> whole[i] == start[i]);
    assert(forall|i: int| 0 <= i < rest.len() ==> whole[start.len() + i] == rest[i]);
    lemma_kept_start(State::Document, start, rest, State::BasicString, prefix, number);
}

/// A basic string goes on with every character but a quote and a backslash.
pub proof fn law_basic_strings_go_on(character: char, rest: Seq<char>, prefix: Seq<char>, number: nat)
    requires
        character != '"' && character != '\\',
    ensures
        mask::bare_names(mask::pieces(State::BasicString, seq![character] + rest)) == mask::bare_names(
            mask::pieces(State::BasicString, rest),
        ),
        mask::masked(mask::pieces(State::BasicString, seq![character] + rest), prefix, number) == seq![character]
            + mask::masked(mask::pieces(State::BasicString, rest), prefix, number),
{
    let start = seq![character];
    let whole = start + rest;
    mask_twice::lemma_fence(whole);
    assert(whole.take(start.len() as int) =~= start);
    assert(forall|i: int| 0 <= i < start.len() ==> whole[i] == start[i]);
    assert(forall|i: int| 0 <= i < rest.len() ==> whole[start.len() + i] == rest[i]);
    lemma_kept_start(State::BasicString, start, rest, State::BasicString, prefix, number);
}

/// A basic string goes on after a backslash and the character that it escapes.
pub proof fn law_basic_strings_go_on_after_escapes(character: char, rest: Seq<char>, prefix: Seq<char>, number: nat)
    ensures
        mask::bare_names(mask::pieces(State::BasicString, seq!['\\', character] + rest)) == mask::bare_names(
            mask::pieces(State::BasicString, rest),
        ),
        mask::masked(mask::pieces(State::BasicString, seq!['\\', character] + rest), prefix, number) == seq!['\\', character]
            + mask::masked(mask::pieces(State::BasicString, rest), prefix, number),
{
    let start = seq!['\\', character];
    let whole = start + rest;
    mask_twice::lemma_fence(whole);
    assert(whole.take(start.len() as int) =~= start);
    assert(forall|i: int| 0 <= i < start.len() ==> whole[i] == start[i]);
    assert(forall|i: int| 0 <= i < rest.len() ==> whole[start.len() + i] == rest[i]);
    lemma_kept_start(State::BasicString, start, rest, State::BasicString, prefix, number);
}

/// A double quote closes a basic string.
pub proof fn law_quotes_close_basic_strings(rest: Seq<char>, prefix: Seq<char>, number: nat)
    ensures
        mask::bare_names(mask::pieces(State::BasicString, seq!['"'] + rest)) == mask::bare_names(
            mask::pieces(State::Document, rest),
        ),
        mask::masked(mask::pieces(State::BasicString, seq!['"'] + rest), prefix, number) == seq!['"']
            + mask::masked(mask::pieces(State::Document, rest), prefix, number),
{
    let start = seq!['"'];
    let whole = start + rest;
    mask_twice::lemma_fence(whole);
    assert(whole.take(start.len() as int) =~= start);
    assert(forall|i: int| 0 <= i < start.len() ==> whole[i] == start[i]);
    assert(forall|i: int| 0 <= i < rest.len() ==> whole[start.len() + i] == rest[i]);
    lemma_kept_start(State::BasicString, start, rest, State::Document, prefix, number);
}

/// A single quote opens a literal string, unless two more follow.
pub proof fn law_quotes_open_literal_strings(rest: Seq<char>, prefix: Seq<char>, number: nat)
    requires
        rest.len() < 2 || rest[0] != '\'' || rest[1] != '\'',
    ensures
        mask::bare_names(mask::pieces(State::Document, seq!['\''] + rest)) == mask::bare_names(
            mask::pieces(State::LiteralString, rest),
        ),
        mask::masked(mask::pieces(State::Document, seq!['\''] + rest), prefix, number) == seq!['\'']
            + mask::masked(mask::pieces(State::LiteralString, rest), prefix, number),
{
    let start = seq!['\''];
    let whole = start + rest;
    mask_twice::lemma_fence(whole);
    assert(whole.take(start.len() as int) =~= start);
    assert(forall|i: int| 0 <= i < start.len() ==> whole[i] == start[i]);
    assert(forall|i: int| 0 <= i < rest.len() ==> whole[start.len() + i] == rest[i]);
    lemma_kept_start(State::Document, start, rest, State::LiteralString, prefix, number);
}

/// A literal string goes on with every character but a quote.
pub proof fn law_literal_strings_go_on(character: char, rest: Seq<char>, prefix: Seq<char>, number: nat)
    requires
        character != '\'',
    ensures
        mask::bare_names(mask::pieces(State::LiteralString, seq![character] + rest)) == mask::bare_names(
            mask::pieces(State::LiteralString, rest),
        ),
        mask::masked(mask::pieces(State::LiteralString, seq![character] + rest), prefix, number) == seq![character]
            + mask::masked(mask::pieces(State::LiteralString, rest), prefix, number),
{
    let start = seq![character];
    let whole = start + rest;
    mask_twice::lemma_fence(whole);
    assert(whole.take(start.len() as int) =~= start);
    assert(forall|i: int| 0 <= i < start.len() ==> whole[i] == start[i]);
    assert(forall|i: int| 0 <= i < rest.len() ==> whole[start.len() + i] == rest[i]);
    lemma_kept_start(State::LiteralString, start, rest, State::LiteralString, prefix, number);
}

/// A single quote closes a literal string.
pub proof fn law_quotes_close_literal_strings(rest: Seq<char>, prefix: Seq<char>, number: nat)
    ensures
        mask::bare_names(mask::pieces(State::LiteralString, seq!['\''] + rest)) == mask::bare_names(
            mask::pieces(State::Document, rest),
        ),
        mask::masked(mask::pieces(State::LiteralString, seq!['\''] + rest), prefix, number) == seq!['\'']
            + mask::masked(mask::pieces(State::Document, rest), prefix, number),
{
    let start = seq!['\''];
    let whole = start + rest;
    mask_twice::lemma_fence(whole);
    assert(whole.take(start.len() as int) =~= start);
    assert(forall|i: int| 0 <= i < start.len() ==> whole[i] == start[i]);
    assert(forall|i: int| 0 <= i < rest.len() ==> whole[start.len() + i] == rest[i]);
    lemma_kept_start(State::LiteralString, start, rest, State::Document, prefix, number);
}

/// Three quotes open a multi-line basic string.
pub proof fn law_three_quotes_open_basic_lines(rest: Seq<char>, prefix: Seq<char>, number: nat)
    ensures
        mask::bare_names(mask::pieces(State::Document, seq!['"', '"', '"'] + rest)) == mask::bare_names(
            mask::pieces(State::MultiBasicString, rest),
        ),
        mask::masked(mask::pieces(State::Document, seq!['"', '"', '"'] + rest), prefix, number) == seq!['"', '"', '"']
            + mask::masked(mask::pieces(State::MultiBasicString, rest), prefix, number),
{
    let start = seq!['"', '"', '"'];
    let whole = start + rest;
    mask_twice::lemma_fence(whole);
    assert(whole.take(start.len() as int) =~= start);
    assert(forall|i: int| 0 <= i < start.len() ==> whole[i] == start[i]);
    assert(forall|i: int| 0 <= i < rest.len() ==> whole[start.len() + i] == rest[i]);
    lemma_kept_start(State::Document, start, rest, State::MultiBasicString, prefix, number);
}

/// A multi-line basic string goes on with every character but a quote and a backslash.
pub proof fn law_basic_lines_go_on(character: char, rest: Seq<char>, prefix: Seq<char>, number: nat)
    requires
        character != '"' && character != '\\',
    ensures
        mask::bare_names(mask::pieces(State::MultiBasicString, seq![character] + rest)) == mask::bare_names(
            mask::pieces(State::MultiBasicString, rest),
        ),
        mask::masked(mask::pieces(State::MultiBasicString, seq![character] + rest), prefix, number) == seq![character]
            + mask::masked(mask::pieces(State::MultiBasicString, rest), prefix, number),
{
    let start = seq![character];
    let whole = start + rest;
    mask_twice::lemma_fence(whole);
    assert(whole.take(start.len() as int) =~= start);
    assert(forall|i: int| 0 <= i < start.len() ==> whole[i] == start[i]);
    assert(forall|i: int| 0 <= i < rest.len() ==> whole[start.len() + i] == rest[i]);
    lemma_kept_start(State::MultiBasicString, start, rest, State::MultiBasicString, prefix, number);
}

/// A multi-line basic string goes on after a backslash and the character that it
/// escapes.
pub proof fn law_basic_lines_go_on_after_escapes(character: char, rest: Seq<char>, prefix: Seq<char>, number: nat)
    ensures
        mask::bare_names(mask::pieces(State::MultiBasicString, seq!['\\', character] + rest)) == mask::bare_names(
            mask::pieces(State::MultiBasicString, rest),
        ),
        mask::masked(mask::pieces(State::MultiBasicString, seq!['\\', character] + rest), prefix, number) == seq!['\\', character]
            + mask::masked(mask::pieces(State::MultiBasicString, rest), prefix, number),
{
    let start = seq!['\\', character];
    let whole = start + rest;
    mask_twice::lemma_fence(whole);
    assert(whole.take(start.len() as int) =~= start);
    assert(forall|i: int| 0 <= i < start.len() ==> whole[i] == start[i]);
    assert(forall|i: int| 0 <= i < rest.len() ==> whole[start.len() + i] == rest[i]);
    lemma_kept_start(State::MultiBasicString, start, rest, State::MultiBasicString, prefix, number);
}

/// One quote or two in a row do not close a multi-line basic string.
pub proof fn law_few_quotes_do_not_close_basic_lines(
    rest: Seq<char>,
    prefix: Seq<char>,
    number: nat,
)
    requires
        rest.len() == 0 || rest[0] != '"',
    ensures
        mask::bare_names(mask::pieces(State::MultiBasicString, seq!['"'] + rest)) == mask::bare_names(
            mask::pieces(State::MultiBasicString, rest),
        ),
        mask::masked(mask::pieces(State::MultiBasicString, seq!['"'] + rest), prefix, number)
            == seq!['"'] + mask::masked(mask::pieces(State::MultiBasicString, rest), prefix, number),
        mask::bare_names(mask::pieces(State::MultiBasicString, seq!['"', '"'] + rest))
            == mask::bare_names(mask::pieces(State::MultiBasicString, rest)),
        mask::masked(mask::pieces(State::MultiBasicString, seq!['"', '"'] + rest), prefix, number)
            == seq!['"', '"'] + mask::masked(
            mask::pieces(State::MultiBasicString, rest),
            prefix,
            number,
        ),
{
    let one = seq!['"'] + rest;
    let two = seq!['"'] + one;
    mask_twice::lemma_fence(one);
    mask_twice::lemma_fence(two);
    assert(one.take(1) =~= seq!['"']);
    assert(two.take(1) =~= seq!['"']);
    lemma_kept_start(State::MultiBasicString, seq!['"'], rest, State::MultiBasicString, prefix, number);
    lemma_kept_start(State::MultiBasicString, seq!['"'], one, State::MultiBasicString, prefix, number);
    assert(two =~= seq!['"', '"'] + rest);
    let tail = mask::masked(mask::pieces(State::MultiBasicString, rest), prefix, number);
    assert(seq!['"'] + (seq!['"'] + tail) =~= seq!['"', '"'] + tail);
}

/// Three quotes close a multi-line basic string, unless one more follows.
pub proof fn law_three_quotes_close_basic_lines(rest: Seq<char>, prefix: Seq<char>, number: nat)
    requires
        rest.len() == 0 || rest[0] != '"',
    ensures
        mask::bare_names(mask::pieces(State::MultiBasicString, seq!['"', '"', '"'] + rest)) == mask::bare_names(
            mask::pieces(State::Document, rest),
        ),
        mask::masked(mask::pieces(State::MultiBasicString, seq!['"', '"', '"'] + rest), prefix, number) == seq!['"', '"', '"']
            + mask::masked(mask::pieces(State::Document, rest), prefix, number),
{
    let start = seq!['"', '"', '"'];
    let whole = start + rest;
    mask_twice::lemma_fence(whole);
    assert(whole.take(start.len() as int) =~= start);
    assert(forall|i: int| 0 <= i < start.len() ==> whole[i] == start[i]);
    assert(forall|i: int| 0 <= i < rest.len() ==> whole[start.len() + i] == rest[i]);
    assert(mask::closing_quotes(whole, '"') == 3);
    lemma_kept_start(State::MultiBasicString, start, rest, State::Document, prefix, number);
}

/// Four quotes close a multi-line basic string, unless one more follows.
pub proof fn law_four_quotes_close_basic_lines(rest: Seq<char>, prefix: Seq<char>, number: nat)
    requires
        rest.len() == 0 || rest[0] != '"',
    ensures
        mask::bare_names(mask::pieces(State::MultiBasicString, seq!['"', '"', '"', '"'] + rest)) == mask::bare_names(
            mask::pieces(State::Document, rest),
        ),
        mask::masked(mask::pieces(State::MultiBasicString, seq!['"', '"', '"', '"'] + rest), prefix, number) == seq!['"', '"', '"', '"']
            + mask::masked(mask::pieces(State::Document, rest), prefix, number),
{
    let start = seq!['"', '"', '"', '"'];
    let whole = start + rest;
    mask_twice::lemma_fence(whole);
    assert(whole.take(start.len() as int) =~= start);
    assert(forall|i: int| 0 <= i < start.len() ==> whole[i] == start[i]);
    assert(forall|i: int| 0 <= i < rest.len() ==> whole[start.len() + i] == rest[i]);
    assert(mask::closing_quotes(whole, '"') == 4);
    lemma_kept_start(State::MultiBasicString, start, rest, State::Document, prefix, number);
}

/// Five quotes close a multi-line basic string, whatever follows.
pub proof fn law_five_quotes_close_basic_lines(rest: Seq<char>, prefix: Seq<char>, number: nat)
    ensures
        mask::bare_names(mask::pieces(State::MultiBasicString, seq!['"', '"', '"', '"', '"'] + rest)) == mask::bare_names(
            mask::pieces(State::Document, rest),
        ),
        mask::masked(mask::pieces(State::MultiBasicString, seq!['"', '"', '"', '"', '"'] + rest), prefix, number) == seq!['"', '"', '"', '"', '"']
            + mask::masked(mask::pieces(State::Document, rest), prefix, number),
{
    let start = seq!['"', '"', '"', '"', '"'];
    let whole = start + rest;
    mask_twice::lemma_fence(whole);
    assert(whole.take(start.len() as int) =~= start);
    assert(forall|i: int| 0 <= i < start.len() ==> whole[i] == start[i]);
    assert(forall|i: int| 0 <= i < rest.len() ==> whole[start.len() + i] == rest[i]);
    assert(mask::closing_quotes(whole, '"') == 5);
    lemma_kept_start(State::MultiBasicString, start, rest, State::Document, prefix, number);
}

/// Three quotes open a multi-line literal string.
pub proof fn law_three_quotes_open_literal_lines(rest: Seq<char>, prefix: Seq<char>, number: nat)
    ensures
        mask::bare_names(mask::pieces(State::Document, seq!['\'', '\'', '\''] + rest)) == mask::bare_names(
            mask::pieces(State::MultiLiteralString, rest),
        ),
        mask::masked(mask::pieces(State::Document, seq!['\'', '\'', '\''] + rest), prefix, number) == seq!['\'', '\'', '\'']
            + mask::masked(mask::pieces(State::MultiLiteralString, rest), prefix, number),
{
    let start = seq!['\'', '\'', '\''];
    let whole = start + rest;
    mask_twice::lemma_fence(whole);
    assert(whole.take(start.len() as int) =~= start);
    assert(forall|i: int| 0 <= i < start.len() ==> whole[i] == start[i]);
    assert(forall|i: int| 0 <= i < rest.len() ==> whole[start.len() + i] == rest[i]);
    lemma_kept_start(State::Document, start, rest, State::MultiLiteralString, prefix, number);
}

/// A multi-line literal string goes on with every character but a quote.
pub proof fn law_literal_lines_go_on(character: char, rest: Seq<char>, prefix: Seq<char>, number: nat)
    requires
        character != '\'',
    ensures
        mask::bare_names(mask::pieces(State::MultiLiteralString, seq![character] + rest)) == mask::bare_names(
            mask::pieces(State::MultiLiteralString, rest),
        ),
        mask::masked(mask::pieces(State::MultiLiteralString, seq![character] + rest), prefix, number) == seq![character]
            + mask::masked(mask::pieces(State::MultiLiteralString, rest), prefix, number),
{
    let start = seq![character];
    let whole = start + rest;
    mask_twice::lemma_fence(whole);
    assert(whole.take(start.len() as int) =~= start);
    assert(forall|i: int| 0 <= i < start.len() ==> whole[i] == start[i]);
    assert(forall|i: int| 0 <= i < rest.len() ==> whole[start.len() + i] == rest[i]);
    lemma_kept_start(State::MultiLiteralString, start, rest, State::MultiLiteralString, prefix, number);
}

/// One quote or two in a row do not close a multi-line literal string.
pub proof fn law_few_quotes_do_not_close_literal_lines(
    rest: Seq<char>,
    prefix: Seq<char>,
    number: nat,
)
    requires
        rest.len() == 0 || rest[0] != '\'',
    ensures
        mask::bare_names(mask::pieces(State::MultiLiteralString, seq!['\''] + rest)) == mask::bare_names(
            mask::pieces(State::MultiLiteralString, rest),
        ),
        mask::masked(mask::pieces(State::MultiLiteralString, seq!['\''] + rest), prefix, number)
            == seq!['\''] + mask::masked(mask::pieces(State::MultiLiteralString, rest), prefix, number),
        mask::bare_names(mask::pieces(State::MultiLiteralString, seq!['\'', '\''] + rest))
            == mask::bare_names(mask::pieces(State::MultiLiteralString, rest)),
        mask::masked(mask::pieces(State::MultiLiteralString, seq!['\'', '\''] + rest), prefix, number)
            == seq!['\'', '\''] + mask::masked(
            mask::pieces(State::MultiLiteralString, rest),
            prefix,
            number,
        ),
{
    let one = seq!['\''] + rest;
    let two = seq!['\''] + one;
    mask_twice::lemma_fence(one);
    mask_twice::lemma_fence(two);
    assert(one.take(1) =~= seq!['\'']);
    assert(two.take(1) =~= seq!['\'']);
    lemma_kept_start(State::MultiLiteralString, seq!['\''], rest, State::MultiLiteralString, prefix, number);
    lemma_kept_start(State::MultiLiteralString, seq!['\''], one, State::MultiLiteralString, prefix, number);
    assert(two =~= seq!['\'', '\''] + rest);
    let tail = mask::masked(mask::pieces(State::MultiLiteralString, rest), prefix, number);
    assert(seq!['\''] + (seq!['\''] + tail) =~= seq!['\'', '\''] + tail);
}

/// Three quotes close a multi-line literal string, unless one more follows.
pub proof fn law_three_quotes_close_literal_lines(rest: Seq<char>, prefix: Seq<char>, number: nat)
    requires
        rest.len() == 0 || rest[0] != '\'',
    ensures
        mask::bare_names(mask::pieces(State::MultiLiteralString, seq!['\'', '\'', '\''] + rest)) == mask::bare_names(
            mask::pieces(State::Document, rest),
        ),
        mask::masked(mask::pieces(State::MultiLiteralString, seq!['\'', '\'', '\''] + rest), prefix, number) == seq!['\'', '\'', '\'']
            + mask::masked(mask::pieces(State::Document, rest), prefix, number),
{
    let start = seq!['\'', '\'', '\''];
    let whole = start + rest;
    mask_twice::lemma_fence(whole);
    assert(whole.take(start.len() as int) =~= start);
    assert(forall|i: int| 0 <= i < start.len() ==> whole[i] == start[i]);
    assert(forall|i: int| 0 <= i < rest.len() ==> whole[start.len() + i] == rest[i]);
    assert(mask::closing_quotes(whole, '\'') == 3);
    lemma_kept_start(State::MultiLiteralString, start, rest, State::Document, prefix, number);
}

/// Four quotes close a multi-line literal string, unless one more follows.
pub proof fn law_four_quotes_close_literal_lines(rest: Seq<char>, prefix: Seq<char>, number: nat)
    requires
        rest.len() == 0 || rest[0] != '\'',
    ensures
        mask::bare_names(mask::pieces(State::MultiLiteralString, seq!['\'', '\'', '\'', '\''] + rest)) == mask::bare_names(
            mask::pieces(State::Document, rest),
        ),
        mask::masked(mask::pieces(State::MultiLiteralString, seq!['\'', '\'', '\'', '\''] + rest), prefix, number) == seq!['\'', '\'', '\'', '\'']
            + mask::masked(mask::pieces(State::Document, rest), prefix, number),
{
    let start = seq!['\'', '\'', '\'', '\''];
    let whole = start + rest;
    mask_twice::lemma_fence(whole);
    assert(whole.take(start.len() as int) =~= start);
    assert(forall|i: int| 0 <= i < start.len() ==> whole[i] == start[i]);
    assert(forall|i: int| 0 <= i < rest.len() ==> whole[start.len() + i] == rest[i]);
    assert(mask::closing_quotes(whole, '\'') == 4);
    lemma_kept_start(State::MultiLiteralString, start, rest, State::Document, prefix, number);
}

/// Five quotes close a multi-line literal string, whatever follows.
pub proof fn law_five_quotes_close_literal_lines(rest: Seq<char>, prefix: Seq<char>, number: nat)
    ensures
        mask::bare_names(mask::pieces(State::MultiLiteralString, seq!['\'', '\'', '\'', '\'', '\''] + rest)) == mask::bare_names(
            mask::pieces(State::Document, rest),
        ),
        mask::masked(mask::pieces(State::MultiLiteralString, seq!['\'', '\'', '\'', '\'', '\''] + rest), prefix, number) == seq!['\'', '\'', '\'', '\'', '\'']
            + mask::masked(mask::pieces(State::Document, rest), prefix, number),
{
    let start = seq!['\'', '\'', '\'', '\'', '\''];
    let whole = start + rest;
    mask_twice::lemma_fence(whole);
    assert(whole.take(start.len() as int) =~= start);
    assert(forall|i: int| 0 <= i < start.len() ==> whole[i] == start[i]);
    assert(forall|i: int| 0 <= i < rest.len() ==> whole[start.len() + i] == rest[i]);
    assert(mask::closing_quotes(whole, '\'') == 5);
    lemma_kept_start(State::MultiLiteralString, start, rest, State::Document, prefix, number);
}

/// A backslash that a document ends with is kept.
pub proof fn law_last_backslash_is_kept(prefix: Seq<char>, number: nat)
    ensures
        mask::bare_names(mask::pieces(State::BasicString, seq!['\\'])).len() == 0,
        mask::masked(mask::pieces(State::BasicString, seq!['\\']), prefix, number) == seq!['\\'],
        mask::bare_names(mask::pieces(State::MultiBasicString, seq!['\\'])).len() == 0,
        mask::masked(mask::pieces(State::MultiBasicString, seq!['\\']), prefix, number)
            == seq!['\\'],
{
    let none = Seq::<char>::empty();
    let last = seq!['\\'];
    mask_twice::lemma_fence(last);
    assert(last + none =~= last);
    assert(last.take(1) =~= last);
    lemma_kept_start(State::BasicString, last, none, State::BasicString, prefix, number);
    lemma_kept_start(State::MultiBasicString, last, none, State::MultiBasicString, prefix, number);
    law_nothing_is_nothing(State::BasicString, prefix, number);
    law_nothing_is_nothing(State::MultiBasicString, prefix, number);
    assert(last + none =~= last);
}

/// The prefix of a document's markers is `__RET2SHELL_ENV_`, a number and an
/// underscore, for the least number with which it does not stand in the document.
pub proof fn law_prefix_is_new_and_least(document: Seq<char>) -> (suffix: nat)
    ensures
        mask::fresh_prefix(document) == "__RET2SHELL_ENV_"@ + text::decimal_digits(suffix)
            + seq!['_'],
        !text::occurs_in(document, mask::fresh_prefix(document)),
        forall|smaller: nat|
            smaller < suffix ==> text::occurs_in(
                document,
                "__RET2SHELL_ENV_"@ + #[trigger] text::decimal_digits(smaller) + seq!['_'],
            ),
{
    let suffix = mask_laws::law_fresh_prefix_exists(document);
    assert forall|smaller: nat| smaller < suffix implies text::occurs_in(
        document,
        "__RET2SHELL_ENV_"@ + #[trigger] text::decimal_digits(smaller) + seq!['_'],
    ) by {
        assert(mask::env_prefix(smaller) == "__RET2SHELL_ENV_"@ + text::decimal_digits(smaller)
            + seq!['_']);
    }
    suffix
}

/// A whole document is masked from its start, outside of strings and comments,
/// with markers numbered from zero; each placeholder is listed with its marker
/// and its name, in order.
pub proof fn law_documents_are_masked_from_their_start(
    document: Seq<char>,
    prefix: Seq<char>,
    index: int,
)
    ensures
        mask::masked_with(document, prefix) == mask::masked(
            mask::pieces(State::Document, document),
            prefix,
            0,
        ),
        mask::masked_document(document) == mask::masked_with(
            document,
            mask::fresh_prefix(document),
        ),
        mask::document_names(document) == mask::bare_names(
            mask::pieces(State::Document, document),
        ),
        mask::placeholders_with(document, prefix).len() == mask::document_names(document).len(),
        0 <= index < mask::document_names(document).len() ==> mask::placeholders_with(
            document,
            prefix,
        )[index] == (
            prefix + text::decimal_digits(index as nat),
            mask::document_names(document)[index],
        ),
        mask::document_placeholders(document) == mask::placeholders_with(
            document,
            mask::fresh_prefix(document),
        ),
{
}

} // verus!
