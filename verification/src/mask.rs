//! Finds placeholders in the text of a TOML document and masks the bare ones.
use vstd::prelude::*;
use vstd::utf8::*;

use crate::text::{
    self, bytes_in, char_width, contains, cut, decimal, find, starts_with, strip_last,
};

verus! {

/// A character that a variable's name may start with.
pub open spec fn starts_name(character: char) -> bool {
    character == '_' || 'a' <= character <= 'z' || 'A' <= character <= 'Z'
}

/// A character that a variable's name may go on with.
pub open spec fn continues_name(character: char) -> bool {
    starts_name(character) || '0' <= character <= '9'
}

/// The name of a variable: letters, digits and underscores, no digit first.
pub open spec fn is_name(name: Seq<char>) -> bool {
    &&& name.len() > 0
    &&& starts_name(name[0])
    &&& forall|i: int| 0 <= i < name.len() ==> continues_name(#[trigger] name[i])
}

/// The placeholder of a variable: its name between `${` and `}`.
pub open spec fn placeholder_of(name: Seq<char>) -> Seq<char> {
    seq!['$', '{'] + name + seq!['}']
}

/// The variable whose placeholder the text is, if it is one.
pub open spec fn quoted_name(text: Seq<char>) -> Option<Seq<char>> {
    let name = text.subrange(2, text.len() - 1);
    if text.len() >= 3 && text == placeholder_of(name) && is_name(name) {
        Some(name)
    } else {
        None
    }
}

/// The variable whose placeholder the text starts with, if it starts with one:
/// what stands between `${` and the first `}` after it, where that is a name.
pub open spec fn bare_name(text: Seq<char>) -> Option<Seq<char>> {
    let after = text.skip(2);
    let end = text::index_of(after, '}');
    if seq!['$', '{'].is_prefix_of(text) && end < after.len() && is_name(after.take(end)) {
        Some(after.take(end))
    } else {
        None
    }
}

/// Whether a text is the name of a variable.
pub fn valid_name(name: &str) -> (result: bool)
    ensures
        result == is_name(name@),
{
    let mut characters = name.chars();
    match characters.next() {
        None => {
            return false;
        },
        Some(first) => {
            if !(first == '_' || 'a' <= first && first <= 'z' || 'A' <= first && first <= 'Z') {
                return false;
            }
        },
    }
    let ghost mut seen: int = 1;
    loop
        invariant
            1 <= seen <= name@.len(),
            starts_name(name@[0]),
            forall|i: int| 0 <= i < seen ==> continues_name(#[trigger] name@[i]),
            vstd::std_specs::iter::IteratorSpec::remaining(&characters) == name@.skip(seen),
        decreases name@.len() - seen,
    {
        match characters.next() {
            None => {
                return true;
            },
            Some(character) => {
                assert(character == name@[seen]);
                if !(character == '_' || 'a' <= character && character <= 'z' || 'A' <= character
                    && character <= 'Z' || '0' <= character && character <= '9') {
                    return false;
                }
                proof {
                    seen = seen + 1;
                }
            },
        }
    }
}

/// The text after the `${` that it starts with.
fn after_opening<'a>(text: &'a str) -> (result: Option<&'a str>)
    ensures
        result is Some <==> seq!['$', '{'].is_prefix_of(text@),
        result matches Some(rest) ==> rest@ == text@.skip(2),
{
    proof {
        reveal_strlit("${");
        assert("${"@ =~= seq!['$', '{']);
    }
    if starts_with(text, "${") {
        proof {
            let opening = seq!['$', '{'];
            assert(text@ =~= opening + text@.skip(2));
            text::lemma_cut_after(opening, text@.skip(2));
            is_ascii_chars_encode_utf8(opening);
        }
        Some(cut(text, 2).1)
    } else {
        None
    }
}

/// The variable whose placeholder a text is.
pub fn placeholder_name<'a>(value: &'a str) -> (result: Option<&'a str>)
    ensures
        match result {
            Some(name) => quoted_name(value@) == Some(name@),
            None => quoted_name(value@) is None,
        },
{
    let ghost inner = value@.subrange(2, value@.len() - 1);
    let rest = match after_opening(value) {
        Some(rest) => rest,
        None => {
            return None;
        },
    };
    match strip_last(rest, '}') {
        Some(name) => {
            assert(name@ =~= inner);
            assert(value@ =~= placeholder_of(inner));
            if valid_name(name) {
                Some(name)
            } else {
                None
            }
        },
        None => None,
    }
}

/// A text that starts with `${` and has a `}` at byte `end` after it: what
/// stands between, and how long that is with both around it.
proof fn lemma_bare_parts(text: Seq<char>, name: Seq<char>, end: int)
    requires
        seq!['$', '{'].is_prefix_of(text),
        ({
            let after = text.skip(2);
            let position = text::index_of(after, '}');
            &&& position < after.len()
            &&& end == text::byte_len(after.take(position))
            &&& encode_utf8(name) == encode_utf8(after).subrange(0, end)
        }),
    ensures
        name == text.skip(2).take(text::index_of(text.skip(2), '}')),
        placeholder_of(name).is_prefix_of(text),
        text::byte_len(placeholder_of(name)) == end + 3,
        is_name(name) ==> end == name.len(),
        end + 3 <= text::byte_len(text),
{
    let after = text.skip(2);
    let position = text::index_of(after, '}');
    text::lemma_index_of(after, '}');
    let inner = after.take(position);
    assert(after =~= inner + after.skip(position));
    text::lemma_cut_after(inner, after.skip(position));
    text::lemma_encode_injective(name, inner);
    let whole = placeholder_of(name);
    let rest = text.skip(whole.len() as int);
    assert(text =~= whole + rest);
    text::lemma_encode_concat(whole, rest);
    text::lemma_encode_concat(seq!['$', '{'] + name, seq!['}']);
    text::lemma_encode_concat(seq!['$', '{'], name);
    is_ascii_chars_encode_utf8(seq!['$', '{']);
    is_ascii_chars_encode_utf8(seq!['}']);
    if is_name(name) {
        is_ascii_chars_encode_utf8(name);
    }
}

/// The variable whose placeholder a text starts with, and the number of bytes
/// in that placeholder.
pub fn bare_placeholder<'a>(value: &'a str) -> (result: Option<(&'a str, usize)>)
    ensures
        match result {
            Some((name, consumed)) => bare_name(value@) == Some(name@) && consumed == name@.len()
                + 3,
            None => bare_name(value@) is None,
        },
{
    let rest = match after_opening(value) {
        Some(rest) => rest,
        None => {
            return None;
        },
    };
    match find(rest, '}') {
        Some(end) => {
            let name = cut(rest, end).0;
            let _total = bytes_in(value);
            proof {
                lemma_bare_parts(value@, name@, end as int);
            }
            if valid_name(name) {
                Some((name, end + 3))
            } else {
                None
            }
        },
        None => None,
    }
}

/// Moves the character at a byte of the source to the end of the target, and
/// the byte index to the next character.
pub fn push_character(target: &mut String, source: &str, index: &mut usize)
    requires
        text::is_cut(source@, *old(index) as int),
        *old(index) < text::byte_len(source@),
    ensures
        ({
            let rest = text::text_from(source@, *old(index) as int);
            &&& rest.len() > 0
            &&& final(target)@ == old(target)@.push(rest[0])
            &&& *final(index) == *old(index) + encode_scalar(rest[0] as u32).len()
            &&& *final(index) <= text::byte_len(source@)
            &&& text::is_cut(source@, *final(index) as int)
            &&& text::text_from(source@, *final(index) as int) == rest.skip(1)
        }),
{
    let _total = bytes_in(source);
    let rest = cut(source, *index).1;
    proof {
        text::lemma_not_at_end(source@, *index as int);
        text::lemma_first_char(source@, *index as int);
    }
    match rest.chars().next() {
        Some(character) => {
            target.push(character);
            *index = *index + char_width(character);
        },
        None => vstd::pervasive::unreached(),
    }
}

/// The character at a byte of a text, unless that is its end.
fn character_at(source: &str, index: usize) -> (result: Option<char>)
    requires
        text::is_cut(source@, index as int),
        index <= text::byte_len(source@),
    ensures
        ({
            let rest = text::text_from(source@, index as int);
            match result {
                Some(character) => index < text::byte_len(source@) && rest.len() > 0
                    && character == rest[0],
                None => rest.len() == 0,
            }
        }),
{
    let total = bytes_in(source);
    if index < total {
        proof {
            text::lemma_not_at_end(source@, index as int);
        }
    } else {
        proof {
            text::lemma_at_end(source@);
        }
    }
    cut(source, index).1.chars().next()
}

/// Moves the quotes that close a multi-line string to the end of the target, and
/// the byte index after them.
fn push_closing(target: &mut String, source: &str, index: &mut usize, quote: char)
    requires
        text::is_cut(source@, *old(index) as int),
        *old(index) <= text::byte_len(source@),
        seq![quote, quote, quote].is_prefix_of(text::text_from(source@, *old(index) as int)),
    ensures
        ({
            let rest = text::text_from(source@, *old(index) as int);
            let count = closing_quotes(rest, quote);
            &&& count <= rest.len()
            &&& final(target)@ == old(target)@ + rest.take(count)
            &&& *old(index) < *final(index) <= text::byte_len(source@)
            &&& text::is_cut(source@, *final(index) as int)
            &&& text::text_from(source@, *final(index) as int) == rest.skip(count)
        }),
{
    let ghost rest = text::text_from(source@, *index as int);
    let ghost start = target@;
    let ghost first = *index;
    let ghost fence = seq![quote, quote, quote];
    proof {
        assert(fence[0] == quote && fence[1] == quote && fence[2] == quote);
        assert(rest[0] == quote && rest[1] == quote && rest[2] == quote);
    }
    let mut count: usize = 0;
    loop
        invariant_except_break
            count < 5,
        invariant
            count <= 5,
            count <= rest.len(),
            rest.len() >= 3,
            rest[0] == quote && rest[1] == quote && rest[2] == quote,
            forall|i: int| 0 <= i < count ==> rest[i] == quote,
            target@ == start + rest.take(count as int),
            first <= *index <= text::byte_len(source@),
            count > 0 ==> first < *index,
            text::is_cut(source@, *index as int),
            text::text_from(source@, *index as int) == rest.skip(count as int),
        ensures
            count == closing_quotes(rest, quote),
        decreases 5 - count,
    {
        match character_at(source, *index) {
            Some(character) => {
                if character != quote {
                    break;
                }
            },
            None => {
                break;
            },
        }
        push_character(target, source, index);
        proof {
            assert(rest.take(count as int).push(rest[count as int]) =~= rest.take(count + 1));
            assert(rest.skip(count as int).skip(1) =~= rest.skip(count + 1));
        }
        count = count + 1;
        if count == 5 {
            break;
        }
    }
}

/// The text that every marker starts with, for a given number.
pub open spec fn env_prefix(suffix: nat) -> Seq<char> {
    "__RET2SHELL_ENV_"@ + text::decimal_digits(suffix) + seq!['_']
}

/// `suffix` is the least number whose prefix does not occur in the document.
pub open spec fn is_fresh_suffix(document: Seq<char>, suffix: nat) -> bool {
    &&& !text::occurs_in(document, env_prefix(suffix))
    &&& forall|smaller: nat|
        smaller < suffix ==> text::occurs_in(document, #[trigger] env_prefix(smaller))
}

/// The prefix of a document's markers: the one with the least number that does
/// not occur in the document.
pub open spec fn fresh_prefix(document: Seq<char>) -> Seq<char> {
    env_prefix(choose|suffix: nat| is_fresh_suffix(document, suffix))
}

/// At one position of a document there is at most one prefix.
proof fn lemma_prefix_position(document: Seq<char>, position: int, first: nat, second: nat)
    requires
        text::occurs_at(document, env_prefix(first), position),
        text::occurs_at(document, env_prefix(second), position),
    ensures
        first == second,
{
    let start = "__RET2SHELL_ENV_"@.len() as int;
    let one = text::decimal_digits(first);
    let two = text::decimal_digits(second);
    let rest = document.skip(position).skip(start);
    text::lemma_decimal_digits(first);
    text::lemma_decimal_digits(second);
    assert forall|i: int| 0 <= i < one.len() implies rest[i] == one[i] by {
        assert(env_prefix(first)[start + i] == one[i]);
    }
    assert forall|i: int| 0 <= i < two.len() implies rest[i] == two[i] by {
        assert(env_prefix(second)[start + i] == two[i]);
    }
    assert(rest[one.len() as int] == '_') by {
        assert(env_prefix(first)[start + one.len()] == '_');
    }
    assert(rest[two.len() as int] == '_') by {
        assert(env_prefix(second)[start + two.len()] == '_');
    }
    if one.len() < two.len() {
        assert('0' <= two[one.len() as int] <= '9');
    }
    if two.len() < one.len() {
        assert('0' <= one[two.len() as int] <= '9');
    }
    assert(one =~= two);
    text::lemma_decimal_injective(first, second);
}

/// A position at which a prefix occurs.
spec fn prefix_position(document: Seq<char>, suffix: nat) -> int {
    choose|position: int| text::occurs_at(document, env_prefix(suffix), position)
}

/// A document that holds the first `count` prefixes has at least that many
/// characters.
pub(crate) proof fn lemma_prefixes_fit(document: Seq<char>, count: nat)
    requires
        forall|smaller: nat|
            smaller < count ==> text::occurs_in(document, #[trigger] env_prefix(smaller)),
    ensures
        count <= document.len(),
{
    let place = |number: int| prefix_position(document, number as nat);
    let numbers = vstd::set_lib::set_int_range(0, count as int);
    let places = vstd::set_lib::set_int_range(0, document.len() as int);
    vstd::set_lib::lemma_int_range(0, count as int);
    vstd::set_lib::lemma_int_range(0, document.len() as int);
    assert forall|number: int| numbers.contains(number) implies text::occurs_at(
        document,
        env_prefix(number as nat),
        #[trigger] place(number),
    ) by {
        assert(text::occurs_in(document, env_prefix(number as nat)));
    }
    assert forall|one: int, two: int|
        numbers.contains(one) && numbers.contains(two) && #[trigger] place(one)
            == #[trigger] place(two) implies one == two by {
        lemma_prefix_position(document, place(one), one as nat, two as nat);
    }
    assert(numbers.map(place).subset_of(places)) by {
        assert forall|position: int| numbers.map(place).contains(position) implies places.contains(
            position,
        ) by {
            let number = choose|number: int| numbers.contains(number) && place(number) == position;
            assert(text::occurs_at(document, env_prefix(number as nat), place(number)));
            assert(env_prefix(number as nat).len() > 0);
        }
    }
    vstd::set_lib::lemma_map_size(numbers, numbers.map(place), place);
    vstd::set_lib::lemma_len_subset(numbers.map(place), places);
}

/// There is one fresh number at most.
pub(crate) proof fn lemma_fresh_suffix_unique(document: Seq<char>, first: nat, second: nat)
    requires
        is_fresh_suffix(document, first),
        is_fresh_suffix(document, second),
    ensures
        first == second,
{
    if first < second {
        assert(text::occurs_in(document, env_prefix(first)));
    }
    if second < first {
        assert(text::occurs_in(document, env_prefix(second)));
    }
}

/// A prefix that does not occur in the document.
pub fn marker_prefix(document: &str) -> (prefix: String)
    ensures
        prefix@ == fresh_prefix(document@),
        !text::occurs_in(document@, prefix@),
{
    let mut suffix: usize = 0;
    loop
        invariant
            suffix <= document@.len(),
            forall|smaller: nat|
                smaller < suffix ==> text::occurs_in(
                    document@,
                    #[trigger] env_prefix(smaller),
                ),
        decreases document@.len() - suffix,
    {
        let mut prefix = String::new();
        prefix.append("__RET2SHELL_ENV_");
        prefix.append(decimal(suffix).as_str());
        prefix.push('_');
        proof {
            assert(prefix@ =~= env_prefix(suffix as nat));
        }
        if !contains(document, prefix.as_str()) {
            proof {
                assert(is_fresh_suffix(document@, suffix as nat));
                let chosen = choose|suffix: nat| is_fresh_suffix(document@, suffix);
                lemma_fresh_suffix_unique(document@, suffix as nat, chosen);
            }
            return prefix;
        }
        let _total = bytes_in(document);
        proof {
            assert forall|smaller: nat| smaller < suffix + 1 implies text::occurs_in(
                document@,
                #[trigger] env_prefix(smaller),
            ) by {
                if smaller == suffix {
                    assert(env_prefix(smaller) == prefix@);
                }
            }
            lemma_prefixes_fit(document@, suffix as nat + 1);
            text::lemma_chars_fit(document@);
        }
        suffix = suffix + 1;
    }
}

/// What surrounds a position of a document.
#[derive(Clone, Copy, Debug, PartialEq, Eq, Structural)]
pub enum State {
    /// Nothing: keys, bare values and punctuation.
    Document,
    Comment,
    BasicString,
    LiteralString,
    MultiBasicString,
    MultiLiteralString,
}

impl Default for State {
    fn default() -> (state: Self)
        ensures
            state == State::Document,
    {
        State::Document
    }
}

/// A masked placeholder.
#[derive(Debug)]
pub struct Placeholder {
    /// The text of the string that stands in for the placeholder.
    pub marker: String,
    /// The name of the variable.
    pub name: String,
}

/// A part of a document that is passed over in one step.
pub enum Piece {
    /// Text that is kept as it is.
    Kept(Seq<char>),
    /// A bare placeholder, by the name of its variable.
    Bare(Seq<char>),
}

impl Piece {
    /// The text of the piece in the document.
    pub open spec fn source(self) -> Seq<char> {
        match self {
            Piece::Kept(text) => text,
            Piece::Bare(name) => placeholder_of(name),
        }
    }
}

/// Three double quotes, which open and close a multi-line basic string.
pub open spec fn basic_fence() -> Seq<char> {
    seq!['"', '"', '"']
}

/// Three single quotes, which open and close a multi-line literal string.
pub open spec fn literal_fence() -> Seq<char> {
    seq!['\'', '\'', '\'']
}

/// How many quotes close a multi-line string whose body ends at the first three:
/// those three, and up to two more directly after them, which TOML counts to the
/// body.
pub open spec fn closing_quotes(rest: Seq<char>, quote: char) -> int {
    if rest.len() < 4 || rest[3] != quote {
        3
    } else if rest.len() < 5 || rest[4] != quote {
        4
    } else {
        5
    }
}

/// A backslash with the character that it escapes, or alone at the end.
pub open spec fn escape(rest: Seq<char>) -> Piece {
    Piece::Kept(
        if rest.len() < 2 {
            rest
        } else {
            rest.take(2)
        },
    )
}

/// The first piece of what is left of a document, and the state after it.
pub open spec fn first_piece(state: State, rest: Seq<char>) -> (Piece, State)
    recommends
        rest.len() > 0,
{
    let single = Piece::Kept(rest.take(1));
    match state {
        State::Document => if basic_fence().is_prefix_of(rest) {
            (Piece::Kept(basic_fence()), State::MultiBasicString)
        } else if literal_fence().is_prefix_of(rest) {
            (Piece::Kept(literal_fence()), State::MultiLiteralString)
        } else if rest[0] == '"' {
            (single, State::BasicString)
        } else if rest[0] == '\'' {
            (single, State::LiteralString)
        } else if rest[0] == '#' {
            (single, State::Comment)
        } else {
            match bare_name(rest) {
                Some(name) => (Piece::Bare(name), State::Document),
                None => (single, State::Document),
            }
        },
        State::Comment => if rest[0] == '\n' {
            (single, State::Document)
        } else {
            (single, State::Comment)
        },
        State::BasicString => if rest[0] == '\\' {
            (escape(rest), State::BasicString)
        } else if rest[0] == '"' {
            (single, State::Document)
        } else {
            (single, State::BasicString)
        },
        State::LiteralString => if rest[0] == '\'' {
            (single, State::Document)
        } else {
            (single, State::LiteralString)
        },
        State::MultiBasicString => if basic_fence().is_prefix_of(rest) {
            (Piece::Kept(rest.take(closing_quotes(rest, '"'))), State::Document)
        } else if rest[0] == '\\' {
            (escape(rest), State::MultiBasicString)
        } else {
            (single, State::MultiBasicString)
        },
        State::MultiLiteralString => if literal_fence().is_prefix_of(rest) {
            (Piece::Kept(rest.take(closing_quotes(rest, '\''))), State::Document)
        } else {
            (single, State::MultiLiteralString)
        },
    }
}

/// The first piece is what the text starts with, and it is not empty.
pub proof fn lemma_first_piece(state: State, rest: Seq<char>)
    requires
        rest.len() > 0,
    ensures
        0 < first_piece(state, rest).0.source().len() <= rest.len(),
        first_piece(state, rest).0.source().is_prefix_of(rest),
{
    if let Piece::Bare(name) = first_piece(state, rest).0 {
        let after = rest.skip(2);
        text::lemma_index_of(after, '}');
        assert(placeholder_of(name).is_prefix_of(rest));
    }
}

/// The pieces of what is left of a document.
pub open spec fn pieces(state: State, rest: Seq<char>) -> Seq<Piece>
    decreases rest.len(),
{
    if rest.len() == 0 {
        Seq::empty()
    } else {
        proof {
            lemma_first_piece(state, rest);
        }
        let (piece, next) = first_piece(state, rest);
        seq![piece] + pieces(next, rest.skip(piece.source().len() as int))
    }
}

/// The marker that stands in for a placeholder: the prefix and the number of
/// placeholders before it.
pub open spec fn marker(prefix: Seq<char>, number: nat) -> Seq<char> {
    prefix + text::decimal_digits(number)
}

/// The names of the bare placeholders among the pieces.
pub open spec fn bare_names(parts: Seq<Piece>) -> Seq<Seq<char>>
    decreases parts.len(),
{
    if parts.len() == 0 {
        Seq::empty()
    } else {
        match parts[0] {
            Piece::Kept(_) => bare_names(parts.drop_first()),
            Piece::Bare(name) => seq![name] + bare_names(parts.drop_first()),
        }
    }
}

/// What stands in the masked document for a piece that `number` placeholders
/// come before: kept text itself, for a placeholder its marker as a string.
pub open spec fn shown(piece: Piece, prefix: Seq<char>, number: nat) -> Seq<char> {
    match piece {
        Piece::Kept(text) => text,
        Piece::Bare(_) => seq!['"'] + marker(prefix, number) + seq!['"'],
    }
}

/// How many placeholders come before the next piece.
pub open spec fn number_after(piece: Piece, number: nat) -> nat {
    if piece is Bare {
        number + 1
    } else {
        number
    }
}

/// The pieces one after another as they stand in the masked document, where
/// `number` placeholders come before them.
pub open spec fn masked(parts: Seq<Piece>, prefix: Seq<char>, number: nat) -> Seq<char>
    decreases parts.len(),
{
    if parts.len() == 0 {
        Seq::empty()
    } else {
        shown(parts[0], prefix, number) + masked(
            parts.drop_first(),
            prefix,
            number_after(parts[0], number),
        )
    }
}

/// The pieces of a whole document.
pub open spec fn document_pieces(document: Seq<char>) -> Seq<Piece> {
    pieces(State::Document, document)
}

/// A document with its bare placeholders masked by markers of a prefix.
pub open spec fn masked_with(document: Seq<char>, prefix: Seq<char>) -> Seq<char> {
    masked(document_pieces(document), prefix, 0)
}

/// A document with its bare placeholders masked.
pub open spec fn masked_document(document: Seq<char>) -> Seq<char> {
    masked_with(document, fresh_prefix(document))
}

/// The names of the bare placeholders of a document, in order.
pub open spec fn document_names(document: Seq<char>) -> Seq<Seq<char>> {
    bare_names(document_pieces(document))
}

/// The bare placeholders of a document, in order: the marker of each, with a
/// prefix, and the name of its variable.
pub open spec fn placeholders_with(document: Seq<char>, prefix: Seq<char>) -> Seq<
    (Seq<char>, Seq<char>),
> {
    Seq::new(
        document_names(document).len(),
        |i: int| (marker(prefix, i as nat), document_names(document)[i]),
    )
}

/// The bare placeholders of a document, in order: the marker of each and the
/// name of its variable.
pub open spec fn document_placeholders(document: Seq<char>) -> Seq<(Seq<char>, Seq<char>)> {
    placeholders_with(document, fresh_prefix(document))
}

/// The marker and the name of each placeholder.
pub open spec fn placeholder_views(placeholders: Seq<Placeholder>) -> Seq<
    (Seq<char>, Seq<char>),
> {
    Seq::new(placeholders.len(), |i: int| (placeholders[i].marker@, placeholders[i].name@))
}

/// The names of the placeholders.
spec fn names_of(placeholders: Seq<Placeholder>) -> Seq<Seq<char>> {
    Seq::new(placeholders.len(), |i: int| placeholders[i].name@)
}

/// Each placeholder has the marker of its number.
spec fn numbered(placeholders: Seq<Placeholder>, prefix: Seq<char>) -> bool {
    forall|i: int|
        0 <= i < placeholders.len() ==> (#[trigger] placeholders[i]).marker@ == marker(
            prefix,
            i as nat,
        )
}

/// Passing over the first piece.
pub(crate) proof fn lemma_step(state: State, rest: Seq<char>, prefix: Seq<char>, number: nat)
    requires
        rest.len() > 0,
    ensures
        ({
            let (piece, next) = first_piece(state, rest);
            let tail = pieces(next, rest.skip(piece.source().len() as int));
            &&& masked(pieces(state, rest), prefix, number) == shown(piece, prefix, number)
                + masked(tail, prefix, number_after(piece, number))
            &&& bare_names(pieces(state, rest)) == match piece {
                Piece::Kept(_) => bare_names(tail),
                Piece::Bare(name) => seq![name] + bare_names(tail),
            }
        }),
{
    let (piece, next) = first_piece(state, rest);
    let tail = pieces(next, rest.skip(piece.source().len() as int));
    assert(pieces(state, rest).drop_first() =~= tail);
}

/// A cut at three ASCII quotes or at a placeholder: the cut after them.
proof fn lemma_skip_ascii(document: Seq<char>, index: int, text: Seq<char>)
    requires
        text::is_cut(document, index),
        text.is_prefix_of(text::text_from(document, index)),
        is_ascii_chars(text),
    ensures
        text::is_cut(document, index + text.len()),
        index + text.len() <= text::byte_len(document),
        text::text_from(document, index + text.len()) == text::text_from(
            document,
            index,
        ).skip(text.len() as int),
{
    let rest = text::text_from(document, index);
    text::lemma_cut_advances(document, index, text.len() as int);
    assert(rest.take(text.len() as int) =~= text);
    is_ascii_chars_encode_utf8(text);
}

/// Masks the bare placeholders of a document: each becomes a string of its own,
/// so that the document can be read. Placeholders in strings and comments stay
/// as they are.
pub fn mask_bare_placeholders(document: &str) -> (result: (String, Vec<Placeholder>))
    ensures
        result.0@ == masked_document(document@),
        result.1@.len() == document_names(document@).len(),
        placeholder_views(result.1@) == document_placeholders(document@),
{
    let prefix = marker_prefix(document);
    mask_with(document, prefix.as_str())
}

/// Masks the bare placeholders of a document by markers of a given prefix.
#[verifier::spinoff_prover]
#[verifier::rlimit(40)]
pub fn mask_with(document: &str, prefix: &str) -> (result: (String, Vec<Placeholder>))
    ensures
        result.0@ == masked_with(document@, prefix@),
        result.1@.len() == document_names(document@).len(),
        placeholder_views(result.1@) == placeholders_with(document@, prefix@),
{
    let total = bytes_in(document);
    let mut output = String::new();
    let mut placeholders: Vec<Placeholder> = Vec::new();
    let mut state = State::Document;
    let mut index: usize = 0;
    proof {
        text::lemma_cut_after(Seq::<char>::empty(), document@);
        assert(Seq::<char>::empty() + document@ =~= document@);
        assert(output@ + masked_with(document@, prefix@) =~= masked_with(document@, prefix@));
        assert(names_of(placeholders@) + document_names(document@) =~= document_names(document@));
    }
    while index < total
        invariant
            total == text::byte_len(document@),
            text::is_cut(document@, index as int),
            index <= total,
            output@ + masked(
                pieces(state, text::text_from(document@, index as int)),
                prefix@,
                placeholders@.len(),
            ) == masked_with(document@, prefix@),
            names_of(placeholders@) + bare_names(
                pieces(state, text::text_from(document@, index as int)),
            ) == document_names(document@),
            numbered(placeholders@, prefix@),
        decreases total - index,
    {
        let ghost rest = text::text_from(document@, index as int);
        let ghost start = output@;
        let ghost number = placeholders@.len();
        let ghost found = names_of(placeholders@);
        let ghost piece = first_piece(state, rest).0;
        let ghost next = first_piece(state, rest).1;
        let remainder = cut(document, index).1;
        proof {
            text::lemma_not_at_end(document@, index as int);
            lemma_first_piece(state, rest);
            lemma_step(state, rest, prefix@, number);
            reveal_strlit("\"\"\"");
            assert("\"\"\""@ =~= basic_fence());
            reveal_strlit("'''");
            assert("'''"@ =~= literal_fence());
            if rest.len() >= 2 {
                assert(rest.skip(1).skip(1) =~= rest.skip(2));
            }
        }
        let first = match remainder.chars().next() {
            Some(character) => character,
            None => vstd::pervasive::unreached(),
        };
        match state {
            State::Document => {
                if starts_with(remainder, "\"\"\"") {
                    proof {
                        lemma_skip_ascii(document@, index as int, basic_fence());
                    }
                    output.append("\"\"\"");
                    index = index + 3;
                    state = State::MultiBasicString;
                } else if starts_with(remainder, "'''") {
                    proof {
                        lemma_skip_ascii(document@, index as int, literal_fence());
                    }
                    output.append("'''");
                    index = index + 3;
                    state = State::MultiLiteralString;
                } else if first == '"' {
                    push_character(&mut output, document, &mut index);
                    state = State::BasicString;
                } else if first == '\'' {
                    push_character(&mut output, document, &mut index);
                    state = State::LiteralString;
                } else if first == '#' {
                    push_character(&mut output, document, &mut index);
                    state = State::Comment;
                } else {
                    match bare_placeholder(remainder) {
                        Some((name, consumed)) => {
                            let mut marker = prefix.to_owned();
                            marker.append(decimal(placeholders.len()).as_str());
                            output.push('"');
                            output.append(marker.as_str());
                            output.push('"');
                            placeholders.push(Placeholder { marker, name: name.to_owned() });
                            proof {
                                lemma_skip_ascii(document@, index as int, piece.source());
                                assert(names_of(placeholders@) =~= found + seq![name@]);
                            }
                            index = index + consumed;
                        },
                        None => {
                            push_character(&mut output, document, &mut index);
                        },
                    }
                }
            },
            State::Comment => {
                push_character(&mut output, document, &mut index);
                if first == '\n' {
                    state = State::Document;
                }
            },
            State::BasicString => {
                push_character(&mut output, document, &mut index);
                if first == '\\' {
                    if index < total {
                        push_character(&mut output, document, &mut index);
                    } else {
                        proof {
                            text::lemma_at_end(document@);
                        }
                    }
                } else if first == '"' {
                    state = State::Document;
                }
            },
            State::LiteralString => {
                push_character(&mut output, document, &mut index);
                if first == '\'' {
                    state = State::Document;
                }
            },
            State::MultiBasicString => {
                if starts_with(remainder, "\"\"\"") {
                    push_closing(&mut output, document, &mut index, '"');
                    state = State::Document;
                } else {
                    push_character(&mut output, document, &mut index);
                    if first == '\\' {
                        if index < total {
                            push_character(&mut output, document, &mut index);
                        } else {
                            proof {
                                text::lemma_at_end(document@);
                            }
                        }
                    }
                }
            },
            State::MultiLiteralString => {
                if starts_with(remainder, "'''") {
                    push_closing(&mut output, document, &mut index, '\'');
                    state = State::Document;
                } else {
                    push_character(&mut output, document, &mut index);
                }
            },
        }
        proof {
            assert(state == next);
            assert(output@ =~= start + shown(piece, prefix@, number));
            assert(text::text_from(document@, index as int) =~= rest.skip(
                piece.source().len() as int,
            ));
        }
    }
    proof {
        text::lemma_at_end(document@);
        assert(output@ =~= masked_with(document@, prefix@));
        assert(names_of(placeholders@) =~= document_names(document@));
        assert forall|i: int| 0 <= i < placeholders@.len() implies (
        #[trigger] placeholders@[i]).name@ == document_names(document@)[i] by {
            assert(names_of(placeholders@)[i] == placeholders@[i].name@);
        }
        assert(placeholder_views(placeholders@) =~= placeholders_with(document@, prefix@));
    }
    (output, placeholders)
}

} // verus!
