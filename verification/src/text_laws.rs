//! What the text functions promise of every text.
use vstd::prelude::*;

use crate::{names, text};

verus! {

/// A number below ten is written as its one digit, and any other as what its
/// tens are written as, with the digit of its ones after them.
pub proof fn law_decimal_is_positional(number: nat)
    ensures
        number < 10 ==> text::decimal_digits(number).len() == 1 && text::decimal_digits(
            number,
        )[0] as u32 == '0' as u32 + number,
        number >= 10 ==> text::decimal_digits(number).len() == text::decimal_digits(
            number / 10,
        ).len() + 1 && text::decimal_digits(number).drop_last() == text::decimal_digits(number / 10)
            && text::decimal_digits(number).last() as u32 == '0' as u32 + number % 10,
{
    if number >= 10 {
        let tens = text::decimal_digits(number / 10);
        assert(text::decimal_digits(number).drop_last() =~= tens);
    }
}

/// The first place of a character: it stands there and nowhere before, and where
/// it stands nowhere, that is the end.
pub proof fn law_first_place_of_a_character(text: Seq<char>, character: char, at: int)
    requires
        0 <= at <= text.len(),
        forall|i: int| 0 <= i < at ==> text[i] != character,
        at < text.len() ==> text[at] == character,
    ensures
        text::index_of(text, character) == at,
{
    text::lemma_index_of(text, character);
    let found = text::index_of(text, character);
    if found < at {
        assert(text[found] != character);
    }
    if at < found {
        assert(text[at] != character);
    }
}

/// A text holds another where that is a part of it.
pub proof fn law_a_text_holds_its_parts(before: Seq<char>, needle: Seq<char>, after: Seq<char>)
    ensures
        text::occurs_in(before + needle + after, needle),
{
    let whole = before + needle + after;
    let at = before.len() as int;
    assert(needle =~= whole.skip(at).take(needle.len() as int));
    assert(text::occurs_at(whole, needle, at));
}

/// What a text holds is a part of it.
pub proof fn law_what_a_text_holds_is_a_part(whole: Seq<char>, needle: Seq<char>) -> (at: int)
    requires
        text::occurs_in(whole, needle),
    ensures
        0 <= at <= at + needle.len() <= whole.len(),
        whole.subrange(at, at + needle.len()) == needle,
{
    let at = choose|at: int| text::occurs_at(whole, needle, at);
    assert(needle =~= whole.skip(at).take(needle.len() as int));
    assert(whole.subrange(at, at + needle.len()) =~= needle);
    at
}

/// Text order: a text comes before those that it starts, and of two texts that
/// part after the same start, the one with the lesser character comes first.
pub proof fn law_text_order(
    start: Seq<char>,
    ours: char,
    theirs: char,
    left: Seq<char>,
    right: Seq<char>,
)
    ensures
        !text::precedes(start, start),
        text::precedes(start, start + seq![theirs] + right),
        !text::precedes(start + seq![theirs] + right, start),
        ours < theirs ==> text::precedes(start + seq![ours] + left, start + seq![theirs] + right),
        theirs < ours ==> !text::precedes(start + seq![ours] + left, start + seq![theirs] + right),
    decreases start.len(),
{
    let first = start + seq![ours] + left;
    let second = start + seq![theirs] + right;
    if start.len() == 0 {
        assert(first[0] == ours && second[0] == theirs);
    } else {
        let tail = start.drop_first();
        law_text_order(tail, ours, theirs, left, right);
        assert(first.drop_first() =~= tail + seq![ours] + left);
        assert(second.drop_first() =~= tail + seq![theirs] + right);
    }
}

/// Joining: nothing gives nothing, one text itself, and each further text comes
/// after the separator.
pub proof fn law_joining(parts: Seq<Seq<char>>, last: Seq<char>, separator: Seq<char>)
    ensures
        text::joined(Seq::empty(), separator) == Seq::<char>::empty(),
        text::joined(seq![last], separator) == last,
        parts.len() > 0 ==> text::joined(parts.push(last), separator) == text::joined(
            parts,
            separator,
        ) + separator + last,
{
    assert(parts.push(last).drop_last() =~= parts);
}

/// The texts of strings are what each of them holds.
pub proof fn law_texts_of_strings(strings: Seq<String>, index: int)
    requires
        0 <= index < strings.len(),
    ensures
        text::texts(strings).len() == strings.len(),
        text::texts(strings)[index] == strings[index]@,
{
}

/// A text from one of its parts on, by the bytes of what comes before: the rest.
pub proof fn law_text_from_a_part_on(before: Seq<char>, rest: Seq<char>)
    ensures
        text::is_cut(before + rest, vstd::utf8::encode_utf8(before).len() as int),
        text::text_from(before + rest, vstd::utf8::encode_utf8(before).len() as int) == rest,
        text::byte_len(before) == vstd::utf8::encode_utf8(before).len(),
{
    text::lemma_cut_after(before, rest);
}

/// A list of a set holds its members and nothing else, each before those that it
/// precedes; and any such list is the list of the set.
pub proof fn law_lists_hold_the_members_in_order(
    list: Seq<Seq<char>>,
    set: Set<Seq<char>>,
    member: Seq<char>,
    first: int,
    second: int,
)
    ensures
        names::lists(list, set) ==> (set.contains(member) <==> exists|i: int|
            0 <= i < list.len() && #[trigger] list[i] == member),
        names::lists(list, set) && 0 <= first < second < list.len() ==> text::precedes(
            list[first],
            list[second],
        ),
        (forall|i: int, j: int|
            #![trigger list[i], list[j]]
            0 <= i < j < list.len() ==> text::precedes(list[i], list[j])) && list.to_set() == set
            ==> names::lists(list, set),
{
    if names::lists(list, set) {
        assert(set.contains(member) == list.to_set().contains(member));
        if list.to_set().contains(member) {
            let at = choose|at: int| 0 <= at < list.len() && list[at] == member;
            assert(list[at] == member);
        }
    }
}

} // verus!
