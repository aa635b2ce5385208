//! What masking promises of a document that is masked already.
use vstd::prelude::*;

use crate::mask::{self, Piece, State};
use crate::{mask_laws, text};

verus! {

/// What stands in the masked document for what is left of a document.
pub open spec fn covered(
    state: State,
    rest: Seq<char>,
    prefix: Seq<char>,
    number: nat,
) -> Seq<char> {
    mask::masked(mask::pieces(state, rest), prefix, number)
}

/// An empty basic string comes first, and a bare placeholder directly after it.
/// With the first quote of the marker, the empty string is read as the opening
/// of a multi-line one.
pub open spec fn joins_empty_string(state: State, rest: Seq<char>) -> bool {
    state == State::Document && seq!['"', '"'].is_prefix_of(rest) && mask::bare_name(
        rest.skip(2),
    ) is Some
}

/// A multi-line basic string closes with fewer than five quotes, and a bare
/// placeholder comes directly after it. The first quote of the marker counts to
/// those that close the string.
pub open spec fn joins_closing(state: State, rest: Seq<char>) -> bool {
    let (piece, next) = mask::first_piece(state, rest);
    let len = piece.source().len() as int;
    state == State::MultiBasicString && next == State::Document && len < 5 && mask::bare_name(
        rest.skip(len),
    ) is Some
}

/// The marker of some bare placeholder joins the string before it, so that its
/// first quote is not read as an opening.
pub open spec fn joins_string(state: State, rest: Seq<char>) -> bool
    decreases rest.len(),
{
    if rest.len() == 0 {
        false
    } else {
        proof {
            mask::lemma_first_piece(state, rest);
        }
        let (piece, next) = mask::first_piece(state, rest);
        ||| joins_empty_string(state, rest)
        ||| joins_closing(state, rest)
        ||| joins_string(next, rest.skip(piece.source().len() as int))
    }
}

/// The marker of some bare placeholder joins the string before it, and what comes
/// after that quote in the masked document has a bare placeholder then: one that
/// the document keeps in a string or comment.
pub open spec fn join_bares(state: State, rest: Seq<char>, prefix: Seq<char>, number: nat) -> bool
    decreases rest.len(),
{
    if rest.len() == 0 {
        false
    } else {
        proof {
            mask::lemma_first_piece(state, rest);
        }
        let (piece, next) = mask::first_piece(state, rest);
        let later = rest.skip(piece.source().len() as int);
        if joins_empty_string(state, rest) {
            let after = covered(State::Document, rest.skip(2), prefix, number).skip(1);
            mask::bare_names(mask::pieces(State::MultiBasicString, after)).len() > 0
        } else if joins_closing(state, rest) {
            let after = covered(State::Document, later, prefix, number).skip(1);
            mask::bare_names(mask::pieces(State::Document, after)).len() > 0
        } else {
            join_bares(next, later, prefix, mask::number_after(piece, number))
        }
    }
}

/// A masked document has no bare placeholder left, and masking it again changes
/// nothing, with one exception: a marker that joins the string before it, where
/// a placeholder that was kept in a string or comment is bare then. The two are
/// one and the same: `""${A}""""${B}` is such a document, `""${A}` is not.
pub proof fn law_masking_twice_changes_nothing(document: Seq<char>)
    ensures
        ({
            let once = mask::masked_document(document);
            let bares = join_bares(State::Document, document, mask::fresh_prefix(document), 0);
            &&& mask::document_names(once).len() == 0 <==> !bares
            &&& mask::document_placeholders(once).len() == 0 <==> !bares
            &&& mask::masked_document(once) == once <==> !bares
        }),
{
    let suffix = mask_laws::law_fresh_prefix_exists(document);
    let prefix = mask::fresh_prefix(document);
    let once = mask::masked_document(document);
    lemma_prefix_is_plain(suffix);
    lemma_what_is_left(State::Document, document, prefix, 0);
    if mask::document_names(once).len() == 0 {
        mask_laws::law_nothing_to_mask(once);
    } else {
        let _ = mask_laws::law_fresh_prefix_exists(once);
        lemma_prefix_shows(mask::document_pieces(once), mask::fresh_prefix(once), 0);
    }
}

/// What masking leaves bare is a placeholder that it kept, and there is one only
/// where a marker joins the string before it.
pub proof fn law_only_kept_placeholders_are_left(document: Seq<char>, index: int)
    requires
        0 <= index < mask::document_names(mask::masked_document(document)).len(),
    ensures
        joins_string(State::Document, document),
        text::occurs_in(
            mask::masked_document(document),
            mask::placeholder_of(mask::document_names(mask::masked_document(document))[index]),
        ),
{
    let prefix = mask::fresh_prefix(document);
    law_masking_twice_changes_nothing(document);
    lemma_bares_need_joins(State::Document, document, prefix, 0);
    lemma_names_occur(State::Document, mask::masked_document(document), index);
}

proof fn lemma_bares_need_joins(state: State, rest: Seq<char>, prefix: Seq<char>, number: nat)
    requires
        join_bares(state, rest, prefix, number),
    ensures
        joins_string(state, rest),
    decreases rest.len(),
{
    mask::lemma_first_piece(state, rest);
    if !joins_empty_string(state, rest) && !joins_closing(state, rest) {
        let (piece, next) = mask::first_piece(state, rest);
        let later = rest.skip(piece.source().len() as int);
        lemma_bares_need_joins(next, later, prefix, mask::number_after(piece, number));
    }
}

/// The placeholder of each bare name stands in the text.
proof fn lemma_names_occur(state: State, rest: Seq<char>, index: int)
    requires
        0 <= index < mask::bare_names(mask::pieces(state, rest)).len(),
    ensures
        text::occurs_in(
            rest,
            mask::placeholder_of(mask::bare_names(mask::pieces(state, rest))[index]),
        ),
    decreases rest.len(),
{
    let (piece, next) = mask::first_piece(state, rest);
    let len = piece.source().len() as int;
    let later = rest.skip(len);
    let names = mask::bare_names(mask::pieces(state, rest));
    let after = mask::bare_names(mask::pieces(next, later));
    mask::lemma_first_piece(state, rest);
    mask::lemma_step(state, rest, Seq::empty(), 0);
    let whole = mask::placeholder_of(names[index]);
    if piece is Bare && index == 0 {
        assert(rest.skip(0) =~= rest);
        assert(text::occurs_at(rest, whole, 0));
    } else {
        let past = if piece is Bare {
            index - 1
        } else {
            index
        };
        assert(names[index] == after[past]);
        lemma_names_occur(next, later, past);
        let at = choose|at: int| text::occurs_at(later, whole, at);
        assert(rest.skip(len + at) =~= later.skip(at));
        assert(text::occurs_at(rest, whole, len + at));
    }
}

/// Where a bare placeholder is masked, the prefix stands in the masked text.
proof fn lemma_prefix_shows(parts: Seq<Piece>, prefix: Seq<char>, number: nat)
    requires
        mask::bare_names(parts).len() > 0,
    ensures
        text::occurs_in(mask::masked(parts, prefix, number), prefix),
    decreases parts.len(),
{
    let whole = mask::masked(parts, prefix, number);
    let shown = mask::shown(parts[0], prefix, number);
    if parts[0] is Bare {
        assert(prefix =~= whole.skip(1).take(prefix.len() as int));
        assert(text::occurs_at(whole, prefix, 1));
    } else {
        let tail = mask::masked(parts.drop_first(), prefix, number);
        lemma_prefix_shows(parts.drop_first(), prefix, number);
        let at = choose|at: int| text::occurs_at(tail, prefix, at);
        assert(whole.skip(shown.len() + at) =~= tail.skip(at));
        assert(text::occurs_at(whole, prefix, shown.len() + at));
    }
}

/// Letters, digits and underscores.
pub(crate) open spec fn is_plain(text: Seq<char>) -> bool {
    forall|i: int| 0 <= i < text.len() ==> mask::continues_name(#[trigger] text[i])
}

pub(crate) proof fn lemma_prefix_is_plain(suffix: nat)
    ensures
        is_plain(mask::env_prefix(suffix)),
{
    reveal_strlit("__RET2SHELL_ENV_");
    text::lemma_decimal_digits(suffix);
    let start = "__RET2SHELL_ENV_"@;
    let digits = text::decimal_digits(suffix);
    let prefix = mask::env_prefix(suffix);
    assert forall|i: int| 0 <= i < prefix.len() implies mask::continues_name(
        #[trigger] prefix[i],
    ) by {
        if i < start.len() {
            assert(prefix[i] == start[i]);
        } else if i < start.len() + digits.len() {
            assert(prefix[i] == digits[i - start.len()]);
        }
    }
}

proof fn lemma_marker_is_plain(prefix: Seq<char>, number: nat)
    requires
        is_plain(prefix),
    ensures
        is_plain(mask::marker(prefix, number)),
        mask::marker(prefix, number).len() > 0,
{
    text::lemma_decimal_digits(number);
    let digits = text::decimal_digits(number);
    let whole = mask::marker(prefix, number);
    assert forall|i: int| 0 <= i < whole.len() implies mask::continues_name(
        #[trigger] whole[i],
    ) by {
        if i < prefix.len() {
            assert(whole[i] == prefix[i]);
        } else {
            assert(whole[i] == digits[i - prefix.len()]);
        }
    }
}

/// What the masked text starts with: a quote for a placeholder, else what the
/// document goes on with.
proof fn lemma_start(state: State, rest: Seq<char>, prefix: Seq<char>, number: nat)
    ensures
        covered(state, rest, prefix, number).len() == 0 <==> rest.len() == 0,
        rest.len() > 0 ==> covered(state, rest, prefix, number)[0] == (
        if mask::first_piece(state, rest).0 is Bare {
            '"'
        } else {
            rest[0]
        }),
{
    if rest.len() > 0 {
        mask::lemma_first_piece(state, rest);
        mask::lemma_step(state, rest, prefix, number);
        let piece = mask::first_piece(state, rest).0;
        let shown = mask::shown(piece, prefix, number);
        assert(shown.len() > 0);
        assert(covered(state, rest, prefix, number)[0] == shown[0]);
    }
}

/// Passing over the first piece of the masked text, where that is kept.
proof fn lemma_kept(state: State, rest: Seq<char>, prefix: Seq<char>, number: nat)
    requires
        rest.len() > 0,
        mask::first_piece(state, rest).0 is Kept,
    ensures
        ({
            let (piece, next) = mask::first_piece(state, rest);
            let len = piece.source().len() as int;
            &&& 0 < len <= rest.len()
            &&& piece == Piece::Kept(rest.take(len))
            &&& covered(state, rest, prefix, number) == rest.take(len) + covered(
                next,
                rest.skip(len),
                prefix,
                number,
            )
        }),
{
    mask::lemma_first_piece(state, rest);
    mask::lemma_step(state, rest, prefix, number);
    let piece = mask::first_piece(state, rest).0;
    assert(piece.source() =~= rest.take(piece.source().len() as int));
}

/// Text without quotes and number signs at the start of the masked text stands
/// in the document too.
proof fn lemma_shows(word: Seq<char>, rest: Seq<char>, prefix: Seq<char>, number: nat)
    requires
        word.is_prefix_of(covered(State::Document, rest, prefix, number)),
        !word.contains('"'),
        !word.contains('\''),
        !word.contains('#'),
    ensures
        word.is_prefix_of(rest),
    decreases word.len(),
{
    if word.len() > 0 {
        let all = covered(State::Document, rest, prefix, number);
        lemma_start(State::Document, rest, prefix, number);
        assert(word.contains(word[0]));
        assert(all[0] == word[0]);
        lemma_kept(State::Document, rest, prefix, number);
        assert(mask::basic_fence()[0] == '"' && mask::literal_fence()[0] == '\'');
        assert(mask::first_piece(State::Document, rest) == (
            Piece::Kept(rest.take(1)),
            State::Document,
        ));
        let later = word.skip(1);
        let tail = covered(State::Document, rest.skip(1), prefix, number);
        assert(all.skip(1) =~= tail);
        assert(later =~= tail.take(later.len() as int)) by {
            assert(word =~= all.take(word.len() as int));
        }
        assert forall|character: char| later.contains(character) implies word.contains(
            character,
        ) by {
            let at = choose|at: int| 0 <= at < later.len() && later[at] == character;
            assert(word[at + 1] == character);
        }
        lemma_shows(later, rest.skip(1), prefix, number);
        assert(word =~= rest.take(word.len() as int)) by {
            assert(later =~= rest.skip(1).take(later.len() as int));
            assert forall|i: int| 0 <= i < word.len() implies word[i] == rest[i] by {
                if i > 0 {
                    assert(word[i] == later[i - 1]);
                    assert(rest[i] == rest.skip(1)[i - 1]);
                }
            }
        }
    }
}

/// A text that three equal quotes are the start of.
pub(crate) proof fn lemma_fence(rest: Seq<char>)
    ensures
        mask::basic_fence().is_prefix_of(rest) <==> rest.len() >= 3 && rest[0] == '"' && rest[1]
            == '"' && rest[2] == '"',
        mask::literal_fence().is_prefix_of(rest) <==> rest.len() >= 3 && rest[0] == '\'' && rest[1]
            == '\'' && rest[2] == '\'',
{
    let basic = mask::basic_fence();
    let literal = mask::literal_fence();
    if rest.len() >= 3 {
        assert(rest.take(3)[0] == rest[0] && rest.take(3)[1] == rest[1] && rest.take(3)[2]
            == rest[2]);
        if rest[0] == '"' && rest[1] == '"' && rest[2] == '"' {
            assert(basic =~= rest.take(3));
        }
        if rest[0] == '\'' && rest[1] == '\'' && rest[2] == '\'' {
            assert(literal =~= rest.take(3));
        }
    }
    if basic.is_prefix_of(rest) {
        assert(basic[0] == rest[0] && basic[1] == rest[1] && basic[2] == rest[2]);
    }
    if literal.is_prefix_of(rest) {
        assert(literal[0] == rest[0] && literal[1] == rest[1] && literal[2] == rest[2]);
    }
}

/// Outside of strings and comments, a dollar sign that starts no placeholder
/// starts none in the masked text.
proof fn lemma_no_placeholder(rest: Seq<char>, prefix: Seq<char>, number: nat)
    requires
        rest.len() > 0,
        mask::first_piece(State::Document, rest) == (Piece::Kept(rest.take(1)), State::Document),
    ensures
        mask::bare_name(covered(State::Document, rest, prefix, number)) is None,
{
    let all = covered(State::Document, rest, prefix, number);
    lemma_fence(rest);
    if let Some(name) = mask::bare_name(all) {
        mask_laws::law_bare_placeholder_is_exact(all, name);
        let word = mask::placeholder_of(name);
        assert forall|i: int| 0 <= i < word.len() implies word[i] != '"' && word[i] != '\''
            && #[trigger] word[i] != '#' by {
            if 2 <= i < word.len() - 1 {
                assert(word[i] == name[i - 2]);
                assert(mask::continues_name(name[i - 2]));
            }
        }
        lemma_shows(word, rest, prefix, number);
        mask_laws::law_bare_placeholder_is_exact(rest, name);
        assert(rest[0] == word[0]);
    }
}

/// Outside of strings and comments, a kept piece is read again in the masked
/// text.
#[verifier::spinoff_prover]
#[verifier::rlimit(40)]
proof fn lemma_same_in_document(rest: Seq<char>, prefix: Seq<char>, number: nat)
    requires
        rest.len() > 0,
        !joins_empty_string(State::Document, rest),
        mask::first_piece(State::Document, rest).0 is Kept,
    ensures
        mask::first_piece(State::Document, covered(State::Document, rest, prefix, number))
            == mask::first_piece(State::Document, rest),
{
    let (piece, next) = mask::first_piece(State::Document, rest);
    let len = piece.source().len() as int;
    let all = covered(State::Document, rest, prefix, number);
    let rest1 = rest.skip(len);
    let all1 = covered(next, rest1, prefix, number);
    lemma_kept(State::Document, rest, prefix, number);
    lemma_start(next, rest1, prefix, number);
    lemma_fence(rest);
    lemma_fence(all);
    assert(all[0] == rest[0]);
    assert(all.take(len) =~= rest.take(len));
    assert(all.skip(len) =~= all1);
    if len == 1 && (next == State::BasicString || next == State::LiteralString) {
        let quote = rest[0];
        assert(forall|i: int| 1 <= i < all.len() ==> all[i] == all1[i - 1]);
        assert(forall|i: int| 1 <= i < rest.len() ==> rest[i] == rest1[i - 1]);
        if rest1.len() > 0 && rest1[0] == quote {
            lemma_kept(next, rest1, prefix, number);
            let rest2 = rest1.skip(1);
            let all2 = covered(State::Document, rest2, prefix, number);
            lemma_start(State::Document, rest2, prefix, number);
            assert(rest2 =~= rest.skip(2));
            assert(forall|i: int| 1 <= i < all1.len() ==> all1[i] == all2[i - 1]);
            assert(forall|i: int| 1 <= i < rest1.len() ==> rest1[i] == rest2[i - 1]);
            assert(seq![quote, quote] =~= rest.take(2));
        }
    } else if next == State::Document {
        lemma_no_placeholder(rest, prefix, number);
    }
}

/// In a multi-line string, a kept piece is read again in the masked text.
#[verifier::spinoff_prover]
#[verifier::rlimit(40)]
proof fn lemma_same_in_lines(state: State, rest: Seq<char>, prefix: Seq<char>, number: nat)
    requires
        rest.len() > 0,
        state == State::MultiBasicString || state == State::MultiLiteralString,
        !joins_closing(state, rest),
    ensures
        mask::first_piece(state, covered(state, rest, prefix, number)) == mask::first_piece(
            state,
            rest,
        ),
{
    let (piece, next) = mask::first_piece(state, rest);
    let len = piece.source().len() as int;
    let all = covered(state, rest, prefix, number);
    let rest1 = rest.skip(len);
    let all1 = covered(next, rest1, prefix, number);
    lemma_kept(state, rest, prefix, number);
    lemma_start(next, rest1, prefix, number);
    lemma_fence(rest);
    lemma_fence(all);
    assert(all.take(len) =~= rest.take(len));
    assert(forall|i: int| 0 <= i < len ==> all[i] == all.take(len)[i]);
    assert(forall|i: int| 0 <= i < len ==> rest[i] == rest.take(len)[i]);
    assert(forall|i: int| len <= i < all.len() ==> all[i] == all1[i - len]);
    assert(forall|i: int| len <= i < rest.len() ==> rest[i] == rest1[i - len]);
    if next == state && len == 1 && rest1.len() > 0 {
        lemma_fence(rest1);
        if rest1[0] == rest[0] {
            lemma_kept(next, rest1, prefix, number);
            let (piece1, next1) = mask::first_piece(next, rest1);
            let len1 = piece1.source().len() as int;
            let rest2 = rest1.skip(len1);
            let all2 = covered(next1, rest2, prefix, number);
            lemma_start(next1, rest2, prefix, number);
            assert(forall|i: int| len1 <= i < all1.len() ==> all1[i] == all2[i - len1]);
            assert(forall|i: int| len1 <= i < rest1.len() ==> rest1[i] == rest2[i - len1]);
        }
    }
}

/// A kept piece is read again in the masked text.
#[verifier::spinoff_prover]
#[verifier::rlimit(40)]
proof fn lemma_same_piece(state: State, rest: Seq<char>, prefix: Seq<char>, number: nat)
    requires
        rest.len() > 0,
        !joins_empty_string(state, rest),
        !joins_closing(state, rest),
        mask::first_piece(state, rest).0 is Kept,
    ensures
        mask::first_piece(state, covered(state, rest, prefix, number)) == mask::first_piece(
            state,
            rest,
        ),
{
    match state {
        State::Document => {
            lemma_same_in_document(rest, prefix, number);
        },
        State::MultiBasicString | State::MultiLiteralString => {
            lemma_same_in_lines(state, rest, prefix, number);
        },
        _ => {
            let (piece, next) = mask::first_piece(state, rest);
            let len = piece.source().len() as int;
            let all = covered(state, rest, prefix, number);
            lemma_kept(state, rest, prefix, number);
            lemma_start(next, rest.skip(len), prefix, number);
            assert(all.take(len) =~= rest.take(len));
            assert(all[0] == rest[0]);
            if rest.len() < 2 {
                assert(all =~= rest);
            }
        },
    }
}

/// What the masked text reads as where the marker of a placeholder joins an empty
/// string.
#[verifier::spinoff_prover]
#[verifier::rlimit(40)]
proof fn lemma_joined_empty_string(rest: Seq<char>, prefix: Seq<char>, number: nat)
    requires
        joins_empty_string(State::Document, rest),
        is_plain(prefix),
    ensures
        mask::bare_names(
            mask::pieces(State::Document, covered(State::Document, rest, prefix, number)),
        ) == mask::bare_names(
            mask::pieces(
                State::MultiBasicString,
                covered(State::Document, rest.skip(2), prefix, number).skip(1),
            ),
        ),
{
    let all = covered(State::Document, rest, prefix, number);
    let rest1 = rest.skip(1);
    let rest2 = rest.skip(2);
    let all1 = covered(State::BasicString, rest1, prefix, number);
    let all2 = covered(State::Document, rest2, prefix, number);
    assert(seq!['"', '"'][0] == '"' && seq!['"', '"'][1] == '"');
    assert(rest[0] == '"' && rest[1] == '"');
    assert(rest2[0] == '$') by {
        assert(seq!['$', '{'][0] == '$');
    }
    lemma_fence(rest);
    lemma_fence(rest2);
    lemma_kept(State::Document, rest, prefix, number);
    assert(rest1[0] == '"');
    lemma_kept(State::BasicString, rest1, prefix, number);
    assert(rest1.skip(1) =~= rest2);
    lemma_start(State::Document, rest2, prefix, number);
    assert(all =~= seq!['"', '"'] + all2);
    lemma_fence(all);
    mask::lemma_step(State::Document, all, prefix, number);
    assert(all.skip(3) =~= all2.skip(1));
}

/// What the masked text reads as where the marker of a placeholder joins the
/// closing of a multi-line string.
#[verifier::spinoff_prover]
#[verifier::rlimit(40)]
proof fn lemma_joined_closing(rest: Seq<char>, prefix: Seq<char>, number: nat)
    requires
        rest.len() > 0,
        joins_closing(State::MultiBasicString, rest),
        is_plain(prefix),
    ensures
        ({
            let len = mask::first_piece(State::MultiBasicString, rest).0.source().len() as int;
            mask::bare_names(
                mask::pieces(
                    State::MultiBasicString,
                    covered(State::MultiBasicString, rest, prefix, number),
                ),
            ) == mask::bare_names(
                mask::pieces(
                    State::Document,
                    covered(State::Document, rest.skip(len), prefix, number).skip(1),
                ),
            )
        }),
{
    let len = mask::first_piece(State::MultiBasicString, rest).0.source().len() as int;
    let later = rest.skip(len);
    let all = covered(State::MultiBasicString, rest, prefix, number);
    let after = covered(State::Document, later, prefix, number);
    let name = mask::marker(prefix, number);
    lemma_fence(rest);
    lemma_fence(later);
    lemma_kept(State::MultiBasicString, rest, prefix, number);
    assert(later[0] == '$') by {
        assert(seq!['$', '{'][0] == '$');
    }
    lemma_marker_is_plain(prefix, number);
    mask::lemma_step(State::Document, later, prefix, number);
    assert(after[0] == '"');
    assert(after[1] == name[0]);
    assert(mask::continues_name(name[0]));
    assert(forall|i: int| 0 <= i < len ==> all[i] == rest[i]);
    assert(all[len] == after[0] && all[len + 1] == after[1]);
    lemma_fence(all);
    assert(mask::closing_quotes(all, '"') == len + 1);
    mask::lemma_step(State::MultiBasicString, all, prefix, number);
    assert(all.skip(len + 1) =~= after.skip(1));
}

/// Where a bare placeholder is left in the masked text.
#[verifier::spinoff_prover]
#[verifier::rlimit(40)]
proof fn lemma_what_is_left(state: State, rest: Seq<char>, prefix: Seq<char>, number: nat)
    requires
        is_plain(prefix),
    ensures
        mask::bare_names(mask::pieces(state, covered(state, rest, prefix, number))).len() > 0
            <==> join_bares(state, rest, prefix, number),
    decreases rest.len(),
{
    let all = covered(state, rest, prefix, number);
    if rest.len() > 0 {
        mask::lemma_first_piece(state, rest);
        let (piece, next) = mask::first_piece(state, rest);
        let len = piece.source().len() as int;
        let later = rest.skip(len);
        if joins_empty_string(state, rest) {
            lemma_joined_empty_string(rest, prefix, number);
        } else if joins_closing(state, rest) {
            lemma_joined_closing(rest, prefix, number);
        } else {
            lemma_what_is_left(next, later, prefix, mask::number_after(piece, number));
            match piece {
                Piece::Kept(_) => {
                    let tail = covered(next, later, prefix, number);
                    lemma_same_piece(state, rest, prefix, number);
                    lemma_kept(state, rest, prefix, number);
                    mask::lemma_step(state, all, prefix, number);
                    assert(all.skip(len) =~= tail);
                },
                Piece::Bare(_) => {
                    lemma_marker_stays(later, prefix, number);
                    mask::lemma_step(state, rest, prefix, number);
                },
            }
        }
    }
}

/// A marker is a string, and no placeholder.
proof fn lemma_marker_stays(later: Seq<char>, prefix: Seq<char>, number: nat)
    requires
        is_plain(prefix),
    ensures
        ({
            let tail = covered(State::Document, later, prefix, number + 1);
            let all = seq!['"'] + mask::marker(prefix, number) + seq!['"'] + tail;
            mask::bare_names(mask::pieces(State::Document, all)) == mask::bare_names(
                mask::pieces(State::Document, tail),
            )
        }),
{
    let tail = covered(State::Document, later, prefix, number + 1);
    let name = mask::marker(prefix, number);
    let all = seq!['"'] + name + seq!['"'] + tail;
    let none = Seq::<char>::empty();
    lemma_marker_is_plain(prefix, number);
    assert forall|i: int| 0 <= i < name.len() implies mask_laws::plain(#[trigger] name[i]) by {
        assert(mask::continues_name(name[i]));
    }
    mask_laws::lemma_plain_body(State::BasicString, name);
    lemma_fence(all);
    assert(all[0] == '"');
    assert(all[1] == name[0]);
    assert(mask_laws::plain(name[0]));
    let open = mask_laws::opening(State::BasicString);
    let close = mask_laws::closing(State::BasicString);
    assert(open + name + none + close + tail =~= all);
    assert(open + name + none + close =~= seq!['"'] + name + seq!['"']);
    mask_laws::law_strings_and_comments_are_kept(State::BasicString, name, none, tail, prefix, 0);
}

} // verus!
