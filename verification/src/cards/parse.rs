//! Reading card lines.

use vstd::prelude::*;
use vstd::slice::slice_subrange;
use vstd::string::*;
use crate::cards::card::{texts, views, Card};
use crate::cards::grammar::{
    all_card_lines, bar_position, bar_word, card_line, card_word, cards_of, cards_of_lines,
    is_blank, is_label, is_trimmed, lemma_bar_position, lemma_card_line_is_ascii,
    lemma_well_formed_is_ascii, lemma_word_len, well_formed, words,
};
use crate::cards::model::{is_number, is_side};
use crate::cards::Error;
use crate::text::{is_digit, lemma_line_len, lines, same_text, strip_cr};

verus! {

/// Whether `byte` is the code of a space or a tab.
fn blank_byte(byte: u8) -> (blank: bool)
    ensures
        blank == (byte == 0x20 || byte == 0x09),
{
    byte == 0x20 || byte == 0x09
}

/// Whether `word` is a number: one or more decimal digits.
pub fn is_number_token(word: &str) -> (number: bool)
    ensures
        number == is_number(word@),
{
    let mut digits_only = true;
    let mut any = false;
    for c in it: word.chars()
        invariant
            it.seq() == word@,
            any == (it.index() > 0),
            digits_only == (forall|j: int| 0 <= j < it.index() ==> is_digit(#[trigger] word@[j])),
    {
        any = true;
        if !(c >= '0' && c <= '9') {
            digits_only = false;
        }
    }
    any && digits_only
}

/// Whether `word` is a card's label: a number with a colon behind it.
pub fn is_label_token(word: &str) -> (label: bool)
    ensures
        label == is_label(word@),
{
    let mut count: usize = 0;
    let mut digits_before_last = true;
    let mut last = ':';
    for c in it: word.chars()
        invariant
            it.seq() == word@,
            (count == 0) == (it.index() == 0),
            (count <= 1) == (it.index() <= 1),
            it.index() > 0 ==> last == word@[it.index() - 1],
            digits_before_last == (forall|j: int|
                0 <= j < it.index() - 1 ==> is_digit(#[trigger] word@[j])),
    {
        if count > 0 && !(last >= '0' && last <= '9') {
            digits_before_last = false;
        }
        last = c;
        if count < 2 {
            count = count + 1;
        }
    }
    proof {
        let body = word@.drop_last();
        if count > 1 && digits_before_last {
            assert forall|j: int| 0 <= j < body.len() implies is_digit(#[trigger] body[j]) by {
                assert(body[j] == word@[j]);
            }
        }
        if is_label(word@) {
            assert forall|j: int| 0 <= j < word@.len() - 1 implies is_digit(
                #[trigger] word@[j],
            ) by {
                assert(body[j] == word@[j]);
            }
        }
    }
    count > 1 && digits_before_last && last == ':'
}

/// Splits `line` into its words.
fn split_words<'a>(line: &'a str) -> (row: Vec<&'a str>)
    requires
        line.is_ascii(),
    ensures
        texts(row@) == words(line@),
{
    broadcast use is_ascii_spec_bytes;
    let bytes = line.as_bytes();
    let n = bytes.len();
    let mut row: Vec<&'a str> = Vec::new();
    let mut i: usize = 0;
    assert(line@.skip(0) =~= line@);
    while i < n
        invariant
            line.is_ascii(),
            bytes@ == line.spec_bytes(),
            n == bytes@.len(),
            n == line@.len(),
            i <= n,
            words(line@) == texts(row@) + words(line@.skip(i as int)),
        decreases n - i,
    {
        let ghost rest = line@.skip(i as int);
        if blank_byte(bytes[i]) {
            assert(rest.drop_first() =~= line@.skip(i + 1));
            i = i + 1;
        } else {
            let start = i;
            while i < n && !blank_byte(bytes[i])
                invariant
                    line.is_ascii(),
                    bytes@ == line.spec_bytes(),
                    n == bytes@.len(),
                    n == line@.len(),
                    start <= i <= n,
                    forall|j: int| start <= j < i ==> !is_blank(line@[j]),
                decreases n - i,
            {
                i = i + 1;
            }
            let word = line.substring_ascii(start, i);
            proof {
                lemma_word_len(rest, i - start);
                assert(rest.take(i - start) =~= word@);
                assert(rest.skip(i - start) =~= line@.skip(i as int));
                assert(texts(row@.push(word)) =~= texts(row@) + seq![word@]);
            }
            row.push(word);
        }
    }
    assert(texts(row@) + Seq::<Seq<char>>::empty() =~= texts(row@));
    row
}

/// Reads one row of numbers: the words of `row` if there is at least one and
/// each is a number, and `None` otherwise.
pub fn side<'a>(row: &[&'a str]) -> (numbers: Option<Vec<&'a str>>)
    ensures
        numbers is Some <==> is_side(texts(row@)),
        numbers matches Some(found) ==> found@ == row@,
{
    let n = row.len();
    if n == 0 {
        return None;
    }
    let mut found: Vec<&'a str> = Vec::new();
    let mut i: usize = 0;
    while i < n
        invariant
            n == row@.len(),
            i <= n,
            found@ == row@.take(i as int),
            forall|j: int| 0 <= j < i ==> is_number(#[trigger] texts(row@)[j]),
        decreases n - i,
    {
        let word = row[i];
        if !is_number_token(word) {
            assert(!is_number(texts(row@)[i as int]));
            return None;
        }
        found.push(word);
        assert(found@ =~= row@.take(i + 1));
        i = i + 1;
    }
    assert(found@ =~= row@);
    Some(found)
}

/// The position of the first bar among `row`, or the length of `row` if it
/// holds none.
pub fn find_bar(row: &[&str]) -> (bar: usize)
    ensures
        bar == bar_position(texts(row@)),
{
    let n = row.len();
    let mut i: usize = 0;
    proof {
        reveal_strlit("|");
    }
    assert("|"@ =~= bar_word());
    while i < n && !same_text(row[i], "|")
        invariant
            n == row@.len(),
            i <= n,
            "|"@ == bar_word(),
            forall|j: int| 0 <= j < i ==> texts(row@)[j] != bar_word(),
        decreases n - i,
    {
        i = i + 1;
    }
    proof {
        lemma_bar_position(texts(row@), i as int);
    }
    i
}

/// Reads one card line.
///
/// Returns the card that `line` describes, its numbers being slices of
/// `line`, or `None` if `line` is not a card line.
pub fn card<'a>(line: &'a str) -> (parsed: Option<Card<'a>>)
    ensures
        match parsed {
            Some(found) => card_line(line@) == Some(found@) && found@.holds_numbers(),
            None => card_line(line@) is None,
        },
{
    broadcast use is_ascii_spec_bytes;
    if !line.is_ascii() {
        proof {
            if card_line(line@) is Some {
                lemma_card_line_is_ascii(line@);
            }
        }
        return None;
    }
    let bytes = line.as_bytes();
    let n = bytes.len();
    if n == 0 || blank_byte(bytes[0]) || blank_byte(bytes[n - 1]) {
        return None;
    }
    assert(is_trimmed(line@));
    let row = split_words(line);
    let bar = find_bar(row.as_slice());
    if bar < 2 || bar >= row.len() {
        return None;
    }
    proof {
        reveal_strlit("Card");
    }
    assert("Card"@ =~= card_word());
    if !same_text(row[0], "Card") || !is_label_token(row[1]) {
        return None;
    }
    let ghost all = texts(row@);
    let before = slice_subrange(row.as_slice(), 2, bar);
    let behind = slice_subrange(row.as_slice(), bar + 1, row.len());
    assert(texts(before@) =~= all.subrange(2, bar as int));
    assert(texts(behind@) =~= all.subrange(bar + 1, all.len() as int));
    match (side(before), side(behind)) {
        (Some(owned_numbers), Some(winning_numbers)) => Some(
            Card { owned_numbers, winning_numbers },
        ),
        _ => None,
    }
}

/// Reads a list of cards, one card to a line.
///
/// Returns the cards in the order of their lines, or `Error::Parse` if the
/// text has no line or holds a line that is not a card line.
pub fn parser<'a>(input: &'a str) -> (parsed: Result<Vec<Card<'a>>, Error>)
    ensures
        parsed is Ok <==> well_formed(input@),
        parsed matches Ok(cards) ==> views(cards@) == cards_of(input@),
        parsed matches Err(error) ==> error == Error::Parse,
{
    broadcast use is_ascii_spec_bytes;
    if !input.is_ascii() {
        proof {
            if well_formed(input@) {
                lemma_well_formed_is_ascii(input@);
            }
        }
        return Err(Error::Parse);
    }
    let bytes = input.as_bytes();
    let n = bytes.len();
    let mut cards: Vec<Card<'a>> = Vec::new();
    let ghost mut done: Seq<Seq<char>> = Seq::empty();
    let mut start: usize = 0;
    assert(input@.skip(0) =~= input@);
    while start < n
        invariant
            input.is_ascii(),
            bytes@ == input.spec_bytes(),
            n == bytes@.len(),
            n == input@.len(),
            start <= n,
            lines(input@) == done + lines(input@.skip(start as int)),
            start > 0 ==> done.len() > 0,
            all_card_lines(done),
            views(cards@) == cards_of_lines(done),
        decreases n - start,
    {
        let ghost rest = input@.skip(start as int);
        let mut end = start;
        while end < n && bytes[end] != 0x0a
            invariant
                input.is_ascii(),
                bytes@ == input.spec_bytes(),
                n == bytes@.len(),
                n == input@.len(),
                start <= end <= n,
                forall|j: int| start <= j < end ==> input@[j] != '\n',
            decreases n - end,
        {
            end = end + 1;
        }
        proof {
            lemma_line_len(rest, end - start);
        }
        let stop = if end < n && end > start && bytes[end - 1] == 0x0d {
            end - 1
        } else {
            end
        };
        let next = if end < n {
            end + 1
        } else {
            end
        };
        let line = input.substring_ascii(start, stop);
        proof {
            assert(rest.skip(next - start) =~= input@.skip(next as int));
            if end < n {
                assert(rest.take(end - start) =~= input@.subrange(start as int, end as int));
                assert(line@ =~= strip_cr(rest.take(end - start)));
            } else {
                assert(line@ =~= rest);
                assert(lines(input@.skip(next as int)) =~= Seq::<Seq<char>>::empty());
            }
            assert(lines(rest) =~= seq![line@] + lines(input@.skip(next as int)));
            assert(lines(input@) =~= done.push(line@) + lines(input@.skip(next as int)));
        }
        match card(line) {
            Some(found) => {
                proof {
                    assert(card_line(line@).unwrap() == found@);
                    assert(views(cards@.push(found)) =~= views(cards@).push(found@));
                    assert(cards_of_lines(done.push(line@)) =~= cards_of_lines(done).push(
                        found@,
                    ));
                    done = done.push(line@);
                }
                cards.push(found);
            },
            None => {
                assert(lines(input@)[done.len() as int] == line@);
                return Err(Error::Parse);
            },
        }
        start = next;
    }
    assert(lines(input@) =~= done);
    if cards.len() == 0 {
        return Err(Error::Parse);
    }
    Ok(cards)
}

} // verus!
