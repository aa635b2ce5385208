//! Text as sequences of characters: cutting it at byte offsets, searching it,
//! ordering it, and writing numbers in it.
use vstd::prelude::*;
use vstd::utf8::*;

verus! {

/// The characters of `text` from byte `index` of its UTF-8 encoding on.
pub open spec fn text_from(text: Seq<char>, index: int) -> Seq<char> {
    decode_utf8(encode_utf8(text).subrange(index, encode_utf8(text).len() as int))
}

/// Byte `index` of the UTF-8 encoding of `text` starts a character or ends the text.
pub open spec fn is_cut(text: Seq<char>, index: int) -> bool {
    is_char_boundary(encode_utf8(text), index)
}

/// The number of bytes in the UTF-8 encoding of `text`.
pub open spec fn byte_len(text: Seq<char>) -> nat {
    encode_utf8(text).len()
}

/// The encoding of a concatenation is the concatenation of the encodings.
pub proof fn lemma_encode_concat(first: Seq<char>, second: Seq<char>)
    ensures
        encode_utf8(first + second) == encode_utf8(first) + encode_utf8(second),
    decreases first.len(),
{
    if first.len() == 0 {
        assert(first + second =~= second);
    } else {
        lemma_encode_concat(first.drop_first(), second);
        assert((first + second).drop_first() =~= first.drop_first() + second);
    }
}

/// Where the encodings of two texts agree, so do the texts.
pub proof fn lemma_encode_injective(first: Seq<char>, second: Seq<char>)
    requires
        encode_utf8(first) == encode_utf8(second),
    ensures
        first == second,
{
    encode_utf8_decode_utf8(first);
    encode_utf8_decode_utf8(second);
}

/// The end of the encoding of a prefix is a cut, and the rest follows from it.
pub proof fn lemma_cut_after(prefix: Seq<char>, rest: Seq<char>)
    ensures
        is_cut(prefix + rest, byte_len(prefix) as int),
        text_from(prefix + rest, byte_len(prefix) as int) == rest,
        byte_len(prefix + rest) == byte_len(prefix) + byte_len(rest),
        encode_utf8(prefix + rest).subrange(0, byte_len(prefix) as int) == encode_utf8(prefix),
        encode_utf8(prefix + rest).subrange(
            byte_len(prefix) as int,
            byte_len(prefix + rest) as int,
        ) == encode_utf8(rest),
    decreases prefix.len(),
{
    let text = prefix + rest;
    lemma_encode_concat(prefix, rest);
    encode_utf8_valid_utf8(text);
    encode_utf8_decode_utf8(rest);
    assert(encode_utf8(text).subrange(byte_len(prefix) as int, byte_len(text) as int)
        =~= encode_utf8(rest));
    assert(encode_utf8(text).subrange(0, byte_len(prefix) as int) =~= encode_utf8(prefix));
    if prefix.len() == 0 {
        is_char_boundary_start_end_of_seq(encode_utf8(text));
    } else {
        lemma_cut_after(prefix.drop_first(), rest);
        encode_utf8_first_scalar(text);
        assert(text.drop_first() =~= prefix.drop_first() + rest);
        assert(pop_first_scalar(encode_utf8(text)) =~= encode_utf8(text.drop_first()));
        assert(byte_len(prefix) == encode_scalar(text[0] as u32).len() + byte_len(
            prefix.drop_first(),
        ));
    }
}

/// A cut splits the text into the characters before it and those from it on.
pub proof fn lemma_cut_splits(text: Seq<char>, index: int) -> (before: Seq<char>)
    requires
        is_cut(text, index),
    ensures
        0 <= index <= byte_len(text),
        text == before + text_from(text, index),
        byte_len(before) == index,
        encode_utf8(before) == encode_utf8(text).subrange(0, index),
{
    let bytes = encode_utf8(text);
    encode_utf8_valid_utf8(text);
    encode_utf8_decode_utf8(text);
    valid_utf8_split(bytes, index);
    decode_utf8_split(bytes, index);
    let before = decode_utf8(bytes.subrange(0, index));
    decode_utf8_encode_utf8(bytes.subrange(0, index));
    before
}

/// Before the end of a text there is a character left.
pub proof fn lemma_not_at_end(text: Seq<char>, index: int)
    requires
        is_cut(text, index),
        index < byte_len(text),
    ensures
        text_from(text, index).len() > 0,
{
    let before = lemma_cut_splits(text, index);
    if text_from(text, index).len() == 0 {
        assert(text =~= before);
    }
}

/// At the end of a text nothing is left.
pub proof fn lemma_at_end(text: Seq<char>)
    ensures
        text_from(text, byte_len(text) as int) == Seq::<char>::empty(),
{
    lemma_cut_after(text, Seq::<char>::empty());
    assert(text + Seq::<char>::empty() =~= text);
}

/// Cutting again, `count` characters further on.
pub proof fn lemma_cut_advances(text: Seq<char>, index: int, count: int)
    requires
        is_cut(text, index),
        0 <= count <= text_from(text, index).len(),
    ensures
        ({
            let next = index + byte_len(text_from(text, index).take(count));
            &&& is_cut(text, next)
            &&& index <= next <= byte_len(text)
            &&& text_from(text, next) == text_from(text, index).skip(count)
        }),
{
    let rest = text_from(text, index);
    let before = lemma_cut_splits(text, index);
    let prefix = before + rest.take(count);
    assert(text =~= prefix + rest.skip(count));
    lemma_cut_after(prefix, rest.skip(count));
    lemma_encode_concat(before, rest.take(count));
}

/// A text of one character is encoded as that character.
pub proof fn lemma_encode_char(character: char)
    ensures
        encode_utf8(seq![character]) == encode_scalar(character as u32),
{
    reveal_with_fuel(encode_utf8, 2);
    assert(seq![character].drop_first() =~= Seq::<char>::empty());
    assert(encode_utf8(seq![character]) =~= encode_scalar(character as u32));
}

/// The character at a cut that is not the end, and the cut after it.
pub proof fn lemma_first_char(text: Seq<char>, index: int)
    requires
        is_cut(text, index),
        text_from(text, index).len() > 0,
    ensures
        ({
            let rest = text_from(text, index);
            let next = index + encode_scalar(rest[0] as u32).len();
            &&& is_cut(text, next)
            &&& index < next <= byte_len(text)
            &&& text_from(text, next) == rest.skip(1)
        }),
{
    let rest = text_from(text, index);
    lemma_cut_advances(text, index, 1);
    assert(rest.take(1) =~= seq![rest[0]]);
    lemma_encode_char(rest[0]);
}

/// A text has no more characters than bytes.
pub proof fn lemma_chars_fit(text: Seq<char>)
    ensures
        text.len() <= byte_len(text),
    decreases text.len(),
{
    if text.len() > 0 {
        lemma_chars_fit(text.drop_first());
    }
}

/// Appends a character to a string: `String::push`.
///
/// Trusted: the string then holds what it held before and, after that, the
/// character.
pub assume_specification[ String::push ](string: &mut String, character: char)
    ensures
        final(string)@ == old(string)@.push(character),
;

/// The number of bytes in the UTF-8 encoding of a character.
pub fn char_width(character: char) -> (width: usize)
    ensures
        width == encode_scalar(character as u32).len(),
        1 <= width <= 4,
{
    let scalar: u32 = character as u32;
    proof {
        char_is_scalar(character);
    }
    if scalar < 0x80 {
        1
    } else if scalar < 0x800 {
        2
    } else if scalar < 0x10000 {
        3
    } else {
        4
    }
}

/// The number of bytes in the UTF-8 encoding of a text.
pub fn bytes_in(text: &str) -> (count: usize)
    ensures
        count == byte_len(text@),
{
    text.as_bytes().len()
}

/// The part of a text before a cut and the part from it on.
pub fn cut<'a>(text: &'a str, index: usize) -> (parts: (&'a str, &'a str))
    requires
        is_cut(text@, index as int),
    ensures
        parts.0@ + parts.1@ == text@,
        byte_len(parts.0@) == index,
        encode_utf8(parts.0@) == encode_utf8(text@).subrange(0, index as int),
        parts.1@ == text_from(text@, index as int),
{
    let parts = text.split_at(index);
    proof {
        let before = lemma_cut_splits(text@, index as int);
        let rest = text_from(text@, index as int);
        lemma_cut_after(before, rest);
        lemma_encode_injective(parts.0@, before);
        lemma_encode_injective(parts.1@, rest);
    }
    parts
}

/// Whether a text starts with another.
pub fn starts_with(text: &str, prefix: &str) -> (result: bool)
    ensures
        result == prefix@.is_prefix_of(text@),
{
    let mut wanted = prefix.chars();
    let mut found = text.chars();
    let ghost mut seen: int = 0;
    loop
        invariant
            0 <= seen <= prefix@.len(),
            seen <= text@.len(),
            vstd::std_specs::iter::IteratorSpec::remaining(&wanted) == prefix@.skip(seen),
            vstd::std_specs::iter::IteratorSpec::remaining(&found) == text@.skip(seen),
            prefix@.take(seen) == text@.take(seen),
        decreases prefix@.len() - seen,
    {
        match wanted.next() {
            None => {
                assert(prefix@.take(seen) =~= prefix@);
                return true;
            },
            Some(expected) => {
                match found.next() {
                    Some(character) => {
                        if character != expected {
                            return false;
                        }
                        proof {
                            assert(prefix@.take(seen + 1) =~= prefix@.take(seen).push(expected));
                            assert(text@.take(seen + 1) =~= text@.take(seen).push(expected));
                            seen = seen + 1;
                        }
                    },
                    None => {
                        return false;
                    },
                }
            },
        }
    }
}

/// `needle` stands in `text` at character `position`.
pub open spec fn occurs_at(text: Seq<char>, needle: Seq<char>, position: int) -> bool {
    0 <= position <= text.len() && needle.is_prefix_of(text.skip(position))
}

/// `needle` stands somewhere in `text`.
pub open spec fn occurs_in(text: Seq<char>, needle: Seq<char>) -> bool {
    exists|position: int| occurs_at(text, needle, position)
}

/// Whether a text holds another.
pub fn contains(text: &str, needle: &str) -> (result: bool)
    ensures
        result == occurs_in(text@, needle@),
{
    let mut index: usize = 0;
    let ghost mut position: int = 0;
    proof {
        lemma_cut_after(Seq::<char>::empty(), text@);
        assert(Seq::<char>::empty() + text@ =~= text@);
        assert(text@.skip(0) =~= text@);
    }
    loop
        invariant
            0 <= position <= text@.len(),
            is_cut(text@, index as int),
            text_from(text@, index as int) == text@.skip(position),
            forall|earlier: int| 0 <= earlier < position ==> !occurs_at(text@, needle@, earlier),
        decreases text@.len() - position,
    {
        let rest = cut(text, index).1;
        if starts_with(rest, needle) {
            assert(occurs_at(text@, needle@, position));
            return true;
        }
        match rest.chars().next() {
            None => {
                return false;
            },
            Some(character) => {
                let _total = bytes_in(text);
                proof {
                    lemma_first_char(text@, index as int);
                    assert(text@.skip(position).skip(1) =~= text@.skip(position + 1));
                    position = position + 1;
                }
                index = index + char_width(character);
            },
        }
    }
}

/// The number of characters before the first `character` of `text`, or all of
/// them where there is none.
pub open spec fn index_of(text: Seq<char>, character: char) -> int
    decreases text.len(),
{
    if text.len() == 0 || text[0] == character {
        0
    } else {
        1 + index_of(text.drop_first(), character)
    }
}

/// What `index_of` counts: everything before is another character.
pub proof fn lemma_index_of(text: Seq<char>, character: char)
    ensures
        0 <= index_of(text, character) <= text.len(),
        index_of(text, character) < text.len() ==> text[index_of(text, character)] == character,
        forall|i: int| 0 <= i < index_of(text, character) ==> text[i] != character,
    decreases text.len(),
{
    if text.len() > 0 && text[0] != character {
        let tail = text.drop_first();
        lemma_index_of(tail, character);
        assert forall|i: int| 0 <= i < index_of(text, character) implies text[i] != character by {
            if i > 0 {
                assert(text[i] == tail[i - 1]);
            }
        }
    }
}

/// The byte at which the first `character` of a text stands.
pub fn find(text: &str, character: char) -> (result: Option<usize>)
    ensures
        result is Some <==> index_of(text@, character) < text@.len(),
        result matches Some(index) ==> index == byte_len(
            text@.take(index_of(text@, character)),
        ) && is_cut(text@, index as int),
{
    let total = bytes_in(text);
    let mut characters = text.chars();
    let mut index: usize = 0;
    let ghost mut position: int = 0;
    proof {
        assert(text@.take(0) =~= Seq::<char>::empty());
        assert(text@.skip(0) =~= text@);
    }
    loop
        invariant
            0 <= position <= text@.len(),
            total == byte_len(text@),
            index == byte_len(text@.take(position)),
            vstd::std_specs::iter::IteratorSpec::remaining(&characters) == text@.skip(position),
            index_of(text@, character) == position + index_of(text@.skip(position), character),
        decreases text@.len() - position,
    {
        proof {
            assert(text@ =~= text@.take(position) + text@.skip(position));
            lemma_cut_after(text@.take(position), text@.skip(position));
        }
        match characters.next() {
            None => {
                return None;
            },
            Some(found) => {
                if found == character {
                    return Some(index);
                }
                proof {
                    lemma_first_char(text@, index as int);
                    let next = text@.take(position + 1);
                    assert(next =~= text@.take(position) + seq![found]);
                    lemma_encode_concat(text@.take(position), seq![found]);
                    lemma_encode_char(found);
                    assert(text@.skip(position).drop_first() =~= text@.skip(position + 1));
                    position = position + 1;
                }
                index = index + char_width(found);
            },
        }
    }
}

/// A text without its last character, where that is `character`.
pub fn strip_last<'a>(text: &'a str, character: char) -> (result: Option<&'a str>)
    ensures
        result is Some <==> text@.len() > 0 && text@.last() == character,
        result matches Some(rest) ==> rest@ == text@.drop_last(),
{
    let total = bytes_in(text);
    let mut characters = text.chars();
    let mut last: Option<char> = None;
    let mut start: usize = 0;
    let mut index: usize = 0;
    let ghost mut position: int = 0;
    proof {
        assert(text@.take(0) =~= Seq::<char>::empty());
        assert(text@.skip(0) =~= text@);
    }
    loop
        invariant
            0 <= position <= text@.len(),
            total == byte_len(text@),
            index == byte_len(text@.take(position)),
            last is Some <==> position > 0,
            last matches Some(previous) ==> previous == text@[position - 1] && start == byte_len(
                text@.take(position - 1),
            ),
            vstd::std_specs::iter::IteratorSpec::remaining(&characters) == text@.skip(position),
        ensures
            position == text@.len(),
            last is Some <==> position > 0,
            last matches Some(previous) ==> previous == text@[position - 1] && start == byte_len(
                text@.take(position - 1),
            ),
        decreases text@.len() - position,
    {
        proof {
            assert(text@ =~= text@.take(position) + text@.skip(position));
            lemma_cut_after(text@.take(position), text@.skip(position));
        }
        match characters.next() {
            None => {
                break;
            },
            Some(found) => {
                proof {
                    lemma_first_char(text@, index as int);
                    let next = text@.take(position + 1);
                    assert(next =~= text@.take(position) + seq![found]);
                    lemma_encode_concat(text@.take(position), seq![found]);
                    lemma_encode_char(found);
                    assert(text@.skip(position).drop_first() =~= text@.skip(position + 1));
                    position = position + 1;
                }
                last = Some(found);
                start = index;
                index = index + char_width(found);
            },
        }
    }
    match last {
        Some(found) => {
            if found == character {
                proof {
                    let before = text@.drop_last();
                    assert(text@.take(position - 1) =~= before);
                    assert(text@ =~= before + seq![found]);
                    lemma_cut_after(before, seq![found]);
                }
                let rest = cut(text, start).0;
                assert(rest@ =~= text@.drop_last());
                Some(rest)
            } else {
                None
            }
        },
        None => None,
    }
}

/// Whether two texts hold the same characters.
pub fn same(first: &str, second: &str) -> (result: bool)
    ensures
        result == (first@ == second@),
{
    let result = starts_with(first, second) && starts_with(second, first);
    proof {
        if result {
            assert(first@ =~= second@);
        } else if first@ == second@ {
            assert(first@.take(first@.len() as int) =~= first@);
        }
    }
    result
}

/// The character of a decimal digit.
pub open spec fn digit(value: nat) -> char
    recommends
        value < 10,
{
    (0x30 + value) as char
}

/// A number written in decimal, without leading zeros.
pub open spec fn decimal_digits(number: nat) -> Seq<char>
    decreases number,
{
    if number < 10 {
        seq![digit(number)]
    } else {
        decimal_digits(number / 10).push(digit(number % 10))
    }
}

/// Decimal numbers are written with digits.
pub proof fn lemma_decimal_digits(number: nat)
    ensures
        decimal_digits(number).len() > 0,
        forall|i: int|
            0 <= i < decimal_digits(number).len() ==> '0' <= #[trigger] decimal_digits(number)[i]
                <= '9',
    decreases number,
{
    if number >= 10 {
        lemma_decimal_digits(number / 10);
    }
}

/// Different numbers are written differently.
pub proof fn lemma_decimal_injective(first: nat, second: nat)
    requires
        decimal_digits(first) == decimal_digits(second),
    ensures
        first == second,
    decreases first,
{
    let text = decimal_digits(first);
    if first < 10 {
        if second >= 10 {
            lemma_decimal_digits(second / 10);
            assert(text.len() > 1);
        }
        assert(text.last() == digit(first) && text.last() == digit(second % 10));
    } else {
        if second < 10 {
            lemma_decimal_digits(first / 10);
            assert(text.len() > 1);
        }
        assert(text.last() == digit(first % 10) && text.last() == digit(second % 10));
        assert(text.drop_last() =~= decimal_digits(first / 10));
        assert(text.drop_last() =~= decimal_digits(second / 10));
        lemma_decimal_injective(first / 10, second / 10);
    }
}

/// A number written in decimal.
pub fn decimal(number: usize) -> (text: String)
    ensures
        text@ == decimal_digits(number as nat),
    decreases number,
{
    let mut text = if number < 10 {
        String::new()
    } else {
        decimal(number / 10)
    };
    let units: u8 = (number % 10) as u8;
    text.push((0x30 + units) as char);
    assert(text@ =~= decimal_digits(number as nat));
    text
}

/// Text order: character by character, a prefix before what it starts.
pub open spec fn precedes(first: Seq<char>, second: Seq<char>) -> bool
    decreases first.len(),
{
    if second.len() == 0 {
        false
    } else if first.len() == 0 {
        true
    } else if first[0] == second[0] {
        precedes(first.drop_first(), second.drop_first())
    } else {
        first[0] < second[0]
    }
}

/// Whether a text comes before another.
pub fn is_before(first: &str, second: &str) -> (result: bool)
    ensures
        result == precedes(first@, second@),
{
    let mut left = first.chars();
    let mut right = second.chars();
    let ghost mut seen: int = 0;
    proof {
        assert(first@.skip(0) =~= first@);
        assert(second@.skip(0) =~= second@);
    }
    loop
        invariant
            0 <= seen <= first@.len(),
            seen <= second@.len(),
            vstd::std_specs::iter::IteratorSpec::remaining(&left) == first@.skip(seen),
            vstd::std_specs::iter::IteratorSpec::remaining(&right) == second@.skip(seen),
            precedes(first@, second@) == precedes(first@.skip(seen), second@.skip(seen)),
        decreases first@.len() - seen,
    {
        match right.next() {
            None => {
                return false;
            },
            Some(theirs) => {
                match left.next() {
                    None => {
                        return true;
                    },
                    Some(ours) => {
                        if ours != theirs {
                            return ours < theirs;
                        }
                        proof {
                            assert(first@.skip(seen).drop_first() =~= first@.skip(seen + 1));
                            assert(second@.skip(seen).drop_first() =~= second@.skip(seen + 1));
                            seen = seen + 1;
                        }
                    },
                }
            },
        }
    }
}

/// The characters of each string.
pub open spec fn texts(strings: Seq<String>) -> Seq<Seq<char>> {
    Seq::new(strings.len(), |i: int| strings[i]@)
}

/// The texts one after another, with `separator` between neighbours.
pub open spec fn joined(parts: Seq<Seq<char>>, separator: Seq<char>) -> Seq<char>
    decreases parts.len(),
{
    if parts.len() == 0 {
        Seq::empty()
    } else if parts.len() == 1 {
        parts[0]
    } else {
        joined(parts.drop_last(), separator) + separator + parts.last()
    }
}

/// Joins strings with a separator between neighbours.
pub fn join(parts: &Vec<String>, separator: &str) -> (text: String)
    ensures
        text@ == joined(texts(parts@), separator@),
{
    let mut text = String::new();
    let mut count: usize = 0;
    while count < parts.len()
        invariant
            count <= parts@.len(),
            text@ == joined(texts(parts@.take(count as int)), separator@),
        decreases parts@.len() - count,
    {
        if count > 0 {
            text.append(separator);
        }
        text.append(parts[count].as_str());
        proof {
            let before = texts(parts@.take(count as int));
            let after = texts(parts@.take(count + 1));
            assert(after.drop_last() =~= before);
        }
        count = count + 1;
    }
    assert(parts@.take(count as int) =~= parts@);
    text
}

} // verus!
