//! What masking promises of every document.
use vstd::prelude::*;

use crate::mask::{self, Piece, State};
use crate::text;

verus! {

/// A text starts with the placeholder of a variable if and only if that is what
/// is found in it.
pub proof fn law_bare_placeholder_is_exact(text: Seq<char>, name: Seq<char>)
    ensures
        mask::bare_name(text) == Some(name) <==> mask::is_name(name)
            && mask::placeholder_of(name).is_prefix_of(text),
{
    let after = text.skip(2);
    let end = text::index_of(after, '}');
    text::lemma_index_of(after, '}');
    let whole = mask::placeholder_of(name);
    if mask::is_name(name) && whole.is_prefix_of(text) {
        assert(text[0] == whole[0] && text[1] == whole[1]);
        assert forall|i: int| 0 <= i < name.len() implies after[i] == name[i] by {
            assert(whole[i + 2] == name[i]);
            assert(text[i + 2] == whole[i + 2]);
        }
        assert(after[name.len() as int] == '}') by {
            assert(whole[name.len() as int + 2] == '}');
        }
        if end < name.len() {
            assert(mask::continues_name(name[end]));
        }
        assert(end == name.len());
        assert(after.take(end) =~= name);
        assert(seq!['$', '{'].is_prefix_of(text));
    }
    if mask::bare_name(text) == Some(name) {
        assert(name == after.take(end));
        assert(text[0] == '$' && text[1] == '{');
        assert(whole =~= text.take(whole.len() as int));
    }
}

/// A text is the placeholder of a variable if and only if that is what is found.
pub proof fn law_quoted_placeholder_is_exact(text: Seq<char>, name: Seq<char>)
    ensures
        mask::quoted_name(text) == Some(name) <==> mask::is_name(name) && text
            == mask::placeholder_of(name),
{
    if text == mask::placeholder_of(name) {
        assert(text.subrange(2, text.len() - 1) =~= name);
    }
}

/// The texts of the pieces one after another.
pub open spec fn sources(parts: Seq<Piece>) -> Seq<char>
    decreases parts.len(),
{
    if parts.len() == 0 {
        Seq::empty()
    } else {
        parts[0].source() + sources(parts.drop_first())
    }
}

/// Nothing of a document is lost: its pieces one after another are the document.
pub proof fn law_pieces_make_the_document(state: State, document: Seq<char>)
    ensures
        sources(mask::pieces(state, document)) == document,
    decreases document.len(),
{
    if document.len() > 0 {
        mask::lemma_first_piece(state, document);
        let (piece, next) = mask::first_piece(state, document);
        let rest = document.skip(piece.source().len() as int);
        law_pieces_make_the_document(next, rest);
        assert(mask::pieces(state, document).drop_first() =~= mask::pieces(
            next,
            rest,
        ));
        assert(document =~= piece.source() + rest);
    } else {
        assert(sources(mask::pieces(state, document)) =~= document);
    }
}

/// A document without bare placeholders is masked as itself.
pub proof fn law_nothing_to_mask(document: Seq<char>)
    requires
        mask::document_names(document).len() == 0,
    ensures
        mask::masked_document(document) == document,
{
    let parts = mask::document_pieces(document);
    lemma_kept_as_is(parts, mask::fresh_prefix(document), 0);
    law_pieces_make_the_document(State::Document, document);
}

proof fn lemma_kept_as_is(parts: Seq<Piece>, prefix: Seq<char>, number: nat)
    requires
        mask::bare_names(parts).len() == 0,
    ensures
        mask::masked(parts, prefix, number) == sources(parts),
    decreases parts.len(),
{
    if parts.len() > 0 {
        lemma_kept_as_is(parts.drop_first(), prefix, number);
    }
}

/// The bare placeholders of a document are those of valid names.
pub proof fn law_masked_names_are_valid(document: Seq<char>, index: int)
    requires
        0 <= index < mask::document_names(document).len(),
    ensures
        mask::is_name(mask::document_names(document)[index]),
{
    lemma_names_are_valid(State::Document, document);
}

proof fn lemma_names_are_valid(state: State, rest: Seq<char>)
    ensures
        forall|i: int|
            0 <= i < mask::bare_names(mask::pieces(state, rest)).len()
                ==> mask::is_name(
                #[trigger] mask::bare_names(mask::pieces(state, rest))[i],
            ),
    decreases rest.len(),
{
    if rest.len() > 0 {
        mask::lemma_first_piece(state, rest);
        let (piece, next) = mask::first_piece(state, rest);
        let tail = rest.skip(piece.source().len() as int);
        lemma_names_are_valid(next, tail);
        let parts = mask::pieces(state, rest);
        assert(parts.drop_first() =~= mask::pieces(next, tail));
        let names = mask::bare_names(parts);
        let later = mask::bare_names(mask::pieces(next, tail));
        assert forall|i: int| 0 <= i < names.len() implies mask::is_name(
            #[trigger] names[i],
        ) by {
            if piece is Bare {
                if i > 0 {
                    assert(names[i] == later[i - 1]);
                }
            } else {
                assert(names[i] == later[i]);
            }
        }
    }
}

/// There is a fresh number for every document, and it makes the prefix.
pub proof fn law_fresh_prefix_exists(document: Seq<char>) -> (suffix: nat)
    ensures
        mask::is_fresh_suffix(document, suffix),
        mask::fresh_prefix(document) == mask::env_prefix(suffix),
{
    let suffix = lemma_fresh_from(document, 0);
    law_fresh_prefix_is_least(document, suffix);
    suffix
}

proof fn lemma_fresh_from(document: Seq<char>, from: nat) -> (suffix: nat)
    requires
        forall|smaller: nat|
            smaller < from ==> text::occurs_in(
                document,
                #[trigger] mask::env_prefix(smaller),
            ),
    ensures
        mask::is_fresh_suffix(document, suffix),
    decreases document.len() + 1 - from,
{
    mask::lemma_prefixes_fit(document, from);
    if text::occurs_in(document, mask::env_prefix(from)) {
        lemma_fresh_from(document, from + 1)
    } else {
        from
    }
}

/// The prefix of a document is that of its fresh number.
pub proof fn law_fresh_prefix_is_least(document: Seq<char>, suffix: nat)
    requires
        mask::is_fresh_suffix(document, suffix),
    ensures
        mask::fresh_prefix(document) == mask::env_prefix(suffix),
{
    let chosen = choose|suffix: nat| mask::is_fresh_suffix(document, suffix);
    mask::lemma_fresh_suffix_unique(document, suffix, chosen);
}

/// No marker of a document occurs in its text.
pub proof fn law_markers_are_fresh(document: Seq<char>, number: nat)
    ensures
        !text::occurs_in(
            document,
            mask::marker(mask::fresh_prefix(document), number),
        ),
{
    let suffix = law_fresh_prefix_exists(document);
    let prefix = mask::fresh_prefix(document);
    let marker = mask::marker(prefix, number);
    if text::occurs_in(document, marker) {
        let position = choose|position: int|
            text::occurs_at(document, marker, position);
        assert(prefix =~= marker.take(prefix.len() as int));
        assert(text::occurs_at(document, prefix, position));
    }
}

/// Different placeholders have different markers.
pub proof fn law_markers_are_distinct(prefix: Seq<char>, first: nat, second: nat)
    requires
        mask::marker(prefix, first) == mask::marker(prefix, second),
    ensures
        first == second,
{
    let marker = mask::marker(prefix, first);
    assert(marker.skip(prefix.len() as int) =~= text::decimal_digits(first));
    assert(marker.skip(prefix.len() as int) =~= text::decimal_digits(second));
    text::lemma_decimal_injective(first, second);
}

/// A bare placeholder is masked: it becomes its marker as a string, and what
/// follows is masked as it would be without it, with the next number.
pub proof fn law_bare_placeholder_is_masked(
    name: Seq<char>,
    rest: Seq<char>,
    prefix: Seq<char>,
    number: nat,
)
    requires
        mask::is_name(name),
    ensures
        ({
            let whole = mask::pieces(
                State::Document,
                mask::placeholder_of(name) + rest,
            );
            let tail = mask::pieces(State::Document, rest);
            &&& mask::bare_names(whole) == seq![name] + mask::bare_names(tail)
            &&& mask::masked(whole, prefix, number) == seq!['"'] + mask::marker(
                prefix,
                number,
            ) + seq!['"'] + mask::masked(tail, prefix, number + 1)
        }),
{
    let placeholder = mask::placeholder_of(name);
    let text = placeholder + rest;
    assert(placeholder.is_prefix_of(text)) by {
        assert(text.take(placeholder.len() as int) =~= placeholder);
    }
    law_bare_placeholder_is_exact(text, name);
    assert(text[0] == '$');
    assert(!mask::basic_fence().is_prefix_of(text)) by {
        assert(mask::basic_fence()[0] == '"');
    }
    assert(!mask::literal_fence().is_prefix_of(text)) by {
        assert(mask::literal_fence()[0] == '\'');
    }
    assert(text.skip(placeholder.len() as int) =~= rest);
    mask::lemma_step(State::Document, text, prefix, number);
}

/// A placeholder is masked only where it is bare: not in a string or a comment.
pub proof fn law_only_bare_placeholders_are_masked(state: State, rest: Seq<char>)
    requires
        rest.len() > 0,
        mask::first_piece(state, rest).0 is Bare,
    ensures
        state == State::Document,
{
}

/// What opens the strings and comments that a state stands for.
pub open spec fn opening(state: State) -> Seq<char> {
    match state {
        State::Document => Seq::empty(),
        State::Comment => seq!['#'],
        State::BasicString => seq!['"'],
        State::LiteralString => seq!['\''],
        State::MultiBasicString => mask::basic_fence(),
        State::MultiLiteralString => mask::literal_fence(),
    }
}

/// What closes them.
pub open spec fn closing(state: State) -> Seq<char> {
    match state {
        State::Comment => seq!['\n'],
        _ => opening(state),
    }
}

/// The quotes that the body of a string or comment ends with, before what closes
/// it, where `rest` follows: only a multi-line string may have such, of its own
/// kind.
pub open spec fn ends_with(state: State, quotes: Seq<char>, rest: Seq<char>) -> bool {
    match state {
        State::MultiBasicString => is_ending('"', quotes, rest),
        State::MultiLiteralString => is_ending('\'', quotes, rest),
        _ => quotes.len() == 0,
    }
}

/// One or two quotes, or none; unless there are two, what follows the closing
/// three is no further quote, which would count to them.
pub open spec fn is_ending(quote: char, quotes: Seq<char>, rest: Seq<char>) -> bool {
    &&& quotes.len() <= 2
    &&& forall|i: int| 0 <= i < quotes.len() ==> quotes[i] == quote
    &&& quotes.len() == 2 || rest.len() == 0 || rest[0] != quote
}

/// The body of a string or comment: nothing in it closes it. An escape in it is
/// complete. The quotes that the body of a multi-line string may end with are
/// not counted to it here.
pub open spec fn is_body(state: State, body: Seq<char>) -> bool
    decreases body.len(),
{
    let (piece, next) = mask::first_piece(state, body + closing(state));
    let len = piece.source().len() as int;
    body.len() == 0 || (next == state && 0 < len <= body.len() && is_body(state, body.skip(len)))
}

/// Strings and comments are kept, placeholders in them too, and what follows is
/// masked as it would be without them. A multi-line string may have one or two
/// quotes of its kind before the three that close it. The one condition on what
/// follows is that the opening and the closing are read as such: `''` before
/// another `'` is not an empty string.
#[verifier::spinoff_prover]
#[verifier::rlimit(40)]
pub proof fn law_strings_and_comments_are_kept(
    state: State,
    body: Seq<char>,
    quotes: Seq<char>,
    rest: Seq<char>,
    prefix: Seq<char>,
    number: nat,
)
    requires
        state != State::Document,
        is_body(state, body),
        ends_with(state, quotes, rest),
        mask::first_piece(
            State::Document,
            opening(state) + body + quotes + closing(state) + rest,
        ).1 == state,
    ensures
        ({
            let text = opening(state) + body + quotes + closing(state);
            let whole = mask::pieces(State::Document, text + rest);
            let tail = mask::pieces(State::Document, rest);
            &&& mask::bare_names(whole) == mask::bare_names(tail)
            &&& mask::masked(whole, prefix, number) == text + mask::masked(
                tail,
                prefix,
                number,
            )
        }),
{
    let open = opening(state);
    let close = closing(state);
    let end = quotes + close;
    let inside = body + (end + rest);
    let tail = mask::masked(mask::pieces(State::Document, rest), prefix, number);
    assert(open + body + quotes + close + rest =~= open + inside);
    lemma_opens(state, inside, prefix, number);
    lemma_same_quotes(state, quotes, rest);
    assert(end + rest =~= close + (quotes + rest));
    lemma_body_is_kept(state, body, quotes + rest, prefix, number);
    lemma_closes(state, quotes, rest, prefix, number);
    assert(open + (body + (end + tail)) =~= open + body + quotes + close + tail);
}

/// The quotes that a body ends with are those that close it.
proof fn lemma_same_quotes(state: State, quotes: Seq<char>, rest: Seq<char>)
    requires
        ends_with(state, quotes, rest),
    ensures
        quotes + closing(state) == closing(state) + quotes,
{
    let close = closing(state);
    if quotes.len() > 0 {
        let quote = quotes[0];
        assert(forall|i: int| 0 <= i < close.len() ==> close[i] == quote);
        assert(forall|i: int| 0 <= i < quotes.len() ==> quotes[i] == quote);
    }
    assert(quotes + close =~= close + quotes);
}

/// An opening that is read as such is kept.
#[verifier::spinoff_prover]
#[verifier::rlimit(40)]
proof fn lemma_opens(state: State, inside: Seq<char>, prefix: Seq<char>, number: nat)
    requires
        state != State::Document,
        mask::first_piece(State::Document, opening(state) + inside).1 == state,
    ensures
        ({
            let whole = mask::pieces(State::Document, opening(state) + inside);
            let tail = mask::pieces(state, inside);
            &&& mask::bare_names(whole) == mask::bare_names(tail)
            &&& mask::masked(whole, prefix, number) == opening(state) + mask::masked(
                tail,
                prefix,
                number,
            )
        }),
{
    let all = opening(state) + inside;
    assert(all[0] == opening(state)[0]);
    if opening(state).len() == 1 {
        assert(all.take(1) =~= opening(state));
    }
    mask::lemma_step(State::Document, all, prefix, number);
    assert(all.skip(opening(state).len() as int) =~= inside);
}

/// A closing is kept, and the document goes on after it.
#[verifier::spinoff_prover]
#[verifier::rlimit(40)]
proof fn lemma_closes(
    state: State,
    quotes: Seq<char>,
    rest: Seq<char>,
    prefix: Seq<char>,
    number: nat,
)
    requires
        state != State::Document,
        ends_with(state, quotes, rest),
    ensures
        ({
            let end = quotes + closing(state);
            let whole = mask::pieces(state, end + rest);
            let tail = mask::pieces(State::Document, rest);
            &&& mask::bare_names(whole) == mask::bare_names(tail)
            &&& mask::masked(whole, prefix, number) == end + mask::masked(tail, prefix, number)
        }),
{
    let close = closing(state);
    let end = quotes + close;
    let ending = end + rest;
    lemma_same_quotes(state, quotes, rest);
    assert(ending =~= close + (quotes + rest));
    assert(close =~= ending.take(close.len() as int));
    assert(close.is_prefix_of(ending));
    assert(ending[0] == close[0]);
    assert(ending.take(end.len() as int) =~= end);
    if quotes.len() == 0 {
        assert(end =~= close);
    }
    if state == State::MultiBasicString {
        assert(mask::closing_quotes(ending, '"') == end.len());
    }
    if state == State::MultiLiteralString {
        assert(mask::closing_quotes(ending, '\'') == end.len());
    }
    mask::lemma_step(state, ending, prefix, number);
    assert(ending.skip(end.len() as int) =~= rest);
}

/// A comment that the document ends with is kept, placeholders too.
pub proof fn law_last_comment_is_kept(body: Seq<char>, prefix: Seq<char>, number: nat)
    requires
        !body.contains('\n'),
    ensures
        ({
            let whole = mask::pieces(State::Document, seq!['#'] + body);
            &&& mask::bare_names(whole).len() == 0
            &&& mask::masked(whole, prefix, number) == seq!['#'] + body
        }),
{
    let all = seq!['#'] + body;
    assert(mask::basic_fence()[0] == '"');
    assert(mask::literal_fence()[0] == '\'');
    assert(all.take(1) =~= seq!['#']);
    assert(all.skip(1) =~= body);
    mask::lemma_step(State::Document, all, prefix, number);
    lemma_open_comment_is_kept(body, prefix, number);
}

proof fn lemma_open_comment_is_kept(body: Seq<char>, prefix: Seq<char>, number: nat)
    requires
        !body.contains('\n'),
    ensures
        mask::bare_names(mask::pieces(State::Comment, body)).len() == 0,
        mask::masked(mask::pieces(State::Comment, body), prefix, number) == body,
    decreases body.len(),
{
    if body.len() > 0 {
        let tail = body.skip(1);
        assert(body.contains(body[0]));
        assert(!tail.contains('\n')) by {
            if tail.contains('\n') {
                let at = choose|at: int| 0 <= at < tail.len() && tail[at] == '\n';
                assert(body[at + 1] == '\n');
            }
        }
        lemma_open_comment_is_kept(tail, prefix, number);
        mask::lemma_step(State::Comment, body, prefix, number);
        assert(body.take(1) + tail =~= body);
    } else {
        assert(mask::masked(mask::pieces(State::Comment, body), prefix, number) =~= body);
    }
}

/// Within a string or comment, a piece of the body is read without looking past
/// the closing.
proof fn lemma_looks_no_further(state: State, body: Seq<char>, rest: Seq<char>)
    requires
        state != State::Document,
        body.len() > 0,
        mask::first_piece(state, body + closing(state)).1 == state,
    ensures
        mask::first_piece(state, body + closing(state) + rest) == mask::first_piece(
            state,
            body + closing(state),
        ),
{
    let near = body + closing(state);
    let far = near + rest;
    assert(far[0] == near[0]);
    assert(far.take(1) =~= near.take(1));
    if near.len() >= 2 {
        assert(far.take(2) =~= near.take(2));
    }
    if near.len() >= 3 {
        let basic = mask::basic_fence();
        let literal = mask::literal_fence();
        assert(far.take(3) =~= near.take(3));
        assert(basic.is_prefix_of(far) == (far.take(3) == basic)) by {
            if far.take(3) == basic {
                assert(basic =~= far.subrange(0, 3));
            }
        }
        assert(basic.is_prefix_of(near) == (near.take(3) == basic));
        assert(literal.is_prefix_of(far) == (far.take(3) == literal));
        assert(literal.is_prefix_of(near) == (near.take(3) == literal));
    }
}

#[verifier::spinoff_prover]
#[verifier::rlimit(40)]
proof fn lemma_body_is_kept(
    state: State,
    body: Seq<char>,
    rest: Seq<char>,
    prefix: Seq<char>,
    number: nat,
)
    requires
        state != State::Document,
        is_body(state, body),
    ensures
        ({
            let whole = mask::pieces(state, body + (closing(state) + rest));
            let tail = mask::pieces(state, closing(state) + rest);
            &&& mask::bare_names(whole) == mask::bare_names(tail)
            &&& mask::masked(whole, prefix, number) == body + mask::masked(
                tail,
                prefix,
                number,
            )
        }),
    decreases body.len(),
{
    let close = closing(state);
    let all = body + (close + rest);
    let tail = mask::masked(mask::pieces(state, close + rest), prefix, number);
    if body.len() == 0 {
        assert(all =~= close + rest);
        assert(body + tail =~= tail);
    } else {
        assert(all =~= body + close + rest);
        lemma_looks_no_further(state, body, rest);
        let (piece, next) = mask::first_piece(state, body + close);
        let len = piece.source().len() as int;
        mask::lemma_first_piece(state, body + close);
        mask::lemma_step(state, all, prefix, number);
        assert(all.skip(len) =~= body.skip(len) + (close + rest));
        assert(piece.source() =~= body.take(len));
        lemma_body_is_kept(state, body.skip(len), rest, prefix, number);
        assert(body.take(len) + (body.skip(len) + tail) =~= body + tail);
    }
}

/// A quoted placeholder is such a body, in single and in double quotes and in a
/// comment.
pub proof fn law_placeholders_are_bodies(name: Seq<char>)
    requires
        mask::is_name(name),
    ensures
        is_body(State::LiteralString, mask::placeholder_of(name)),
        is_body(State::BasicString, mask::placeholder_of(name)),
        is_body(State::Comment, mask::placeholder_of(name)),
        is_body(State::MultiLiteralString, mask::placeholder_of(name)),
        is_body(State::MultiBasicString, mask::placeholder_of(name)),
{
    let text = mask::placeholder_of(name);
    assert forall|i: int| 0 <= i < text.len() implies plain(#[trigger] text[i]) by {
        if 2 <= i < text.len() - 1 {
            assert(text[i] == name[i - 2]);
            assert(mask::continues_name(name[i - 2]));
        }
    }
    lemma_plain_body(State::LiteralString, text);
    lemma_plain_body(State::BasicString, text);
    lemma_plain_body(State::Comment, text);
    lemma_plain_body(State::MultiLiteralString, text);
    lemma_plain_body(State::MultiBasicString, text);
}

/// A character that ends no string or comment and starts no escape.
pub(crate) open spec fn plain(character: char) -> bool {
    character != '"' && character != '\'' && character != '\\' && character != '\n'
}

pub(crate) proof fn lemma_plain_body(state: State, body: Seq<char>)
    requires
        state != State::Document,
        forall|i: int| 0 <= i < body.len() ==> plain(#[trigger] body[i]),
    ensures
        is_body(state, body),
    decreases body.len(),
{
    if body.len() > 0 {
        let near = body + closing(state);
        assert(plain(body[0]));
        assert(near[0] == body[0]);
        assert(mask::basic_fence()[0] == '"');
        assert(mask::literal_fence()[0] == '\'');
        assert(near.take(1).len() == 1);
        lemma_plain_body(state, body.skip(1));
    }
}

} // verus!
