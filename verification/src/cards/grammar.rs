//! The grammar of a card line, as a mathematical model.
//!
//! A card line is a row of words with blanks between them: the word `Card`,
//! a label made of an identifier and a colon, the owned numbers, a bar, and
//! the winning numbers. A blank is a space or a tab.

use vstd::prelude::*;
use vstd::utf8::is_ascii_chars;
use crate::cards::model::{is_number, is_side, CardText};
use crate::text::{is_digit, lemma_lines_cover, lemma_lines_prepend, lemma_lines_single, lines, strip_cr};

verus! {

/// A space or a tab.
pub open spec fn is_blank(c: char) -> bool {
    c == ' ' || c == '\t'
}

/// The label of a card: its identifier, a number, with a colon behind it.
pub open spec fn is_label(word: Seq<char>) -> bool {
    word.len() > 0 && word.last() == ':' && is_number(word.drop_last())
}

/// The word that begins every card line.
pub open spec fn card_word() -> Seq<char> {
    seq!['C', 'a', 'r', 'd']
}

/// The word that parts the owned numbers from the winning numbers.
pub open spec fn bar_word() -> Seq<char> {
    seq!['|']
}

/// The number of characters in front of the first blank of `s`, or the length
/// of `s` if it holds no blank.
pub open spec fn word_len(s: Seq<char>) -> nat
    decreases s.len(),
{
    if s.len() == 0 || is_blank(s[0]) {
        0
    } else {
        1 + word_len(s.drop_first())
    }
}

/// The words of `s`: its longest runs of characters that are not blanks, in
/// order.
pub open spec fn words(s: Seq<char>) -> Seq<Seq<char>>
    decreases s.len(),
    via words_decreases
{
    if s.len() == 0 {
        Seq::empty()
    } else if is_blank(s[0]) {
        words(s.drop_first())
    } else {
        let n = word_len(s) as int;
        seq![s.take(n)] + words(s.skip(n))
    }
}

#[via_fn]
proof fn words_decreases(s: Seq<char>) {
    lemma_word_len_bound(s);
}

/// A word is never longer than the text that holds it, holds no blank, and
/// is followed by a blank wherever it is shorter.
pub proof fn lemma_word_len_bound(s: Seq<char>)
    ensures
        word_len(s) <= s.len(),
        word_len(s) < s.len() ==> is_blank(s[word_len(s) as int]),
        forall|j: int| 0 <= j < word_len(s) ==> !is_blank(s[j]),
        s.len() > 0 && !is_blank(s[0]) ==> word_len(s) > 0,
    decreases s.len(),
{
    if s.len() == 0 || is_blank(s[0]) {
    } else {
        let t = s.drop_first();
        lemma_word_len_bound(t);
        assert forall|j: int| 0 <= j < word_len(s) implies !is_blank(s[j]) by {
            if j > 0 {
                assert(s[j] == t[j - 1]);
            }
        }
    }
}

/// `word_len` is the position of the first blank: if no blank stands in
/// front of position `n`, and `n` is the end of `s` or holds a blank, then
/// `word_len(s) == n`.
pub proof fn lemma_word_len(s: Seq<char>, n: int)
    requires
        0 <= n <= s.len(),
        forall|j: int| 0 <= j < n ==> !is_blank(s[j]),
        n == s.len() || is_blank(s[n]),
    ensures
        word_len(s) == n,
    decreases n,
{
    if n > 0 {
        lemma_word_len(s.drop_first(), n - 1);
    }
}

/// The position of the first bar among `row`, or the length of `row` if it
/// holds none.
pub open spec fn bar_position(row: Seq<Seq<char>>) -> nat
    decreases row.len(),
{
    if row.len() == 0 || row[0] == bar_word() {
        0
    } else {
        1 + bar_position(row.drop_first())
    }
}

/// The first bar stands at `bar_position`: no word in front of it is a bar,
/// and where the position lies inside the row, the word there is one.
pub proof fn lemma_bar_position_bound(row: Seq<Seq<char>>)
    ensures
        bar_position(row) <= row.len(),
        bar_position(row) < row.len() ==> row[bar_position(row) as int] == bar_word(),
        forall|j: int| 0 <= j < bar_position(row) ==> row[j] != bar_word(),
    decreases row.len(),
{
    if row.len() == 0 || row[0] == bar_word() {
    } else {
        let rest = row.drop_first();
        lemma_bar_position_bound(rest);
        assert forall|j: int| 0 <= j < bar_position(row) implies row[j] != bar_word() by {
            if j > 0 {
                assert(row[j] == rest[j - 1]);
            }
        }
    }
}

/// `bar_position` is the position of the first bar: if no bar stands in front
/// of position `n`, and `n` is the end of `row` or holds a bar, then
/// `bar_position(row) == n`.
pub proof fn lemma_bar_position(row: Seq<Seq<char>>, n: int)
    requires
        0 <= n <= row.len(),
        forall|j: int| 0 <= j < n ==> row[j] != bar_word(),
        n == row.len() || row[n] == bar_word(),
    ensures
        bar_position(row) == n,
    decreases n,
{
    if n > 0 {
        lemma_bar_position(row.drop_first(), n - 1);
    }
}

/// Neither the first nor the last character of `line` is a blank, and `line`
/// is not empty.
pub open spec fn is_trimmed(line: Seq<char>) -> bool {
    line.len() > 0 && !is_blank(line.first()) && !is_blank(line.last())
}

/// What `line` says if it is a card line, and `None` if it is not one.
///
/// A card line begins and ends with a word. Its first word is `Card`, its
/// second the label. A bar stands somewhere behind them; the words between
/// the label and the bar are the owned numbers, those behind the bar the
/// winning numbers, and each of the two rows holds at least one number and
/// nothing but numbers.
pub open spec fn card_line(line: Seq<char>) -> Option<CardText> {
    let row = words(line);
    let bar = bar_position(row) as int;
    if is_trimmed(line) && 2 <= bar < row.len() && row[0] == card_word() && is_label(row[1])
        && is_side(row.subrange(2, bar)) && is_side(row.subrange(bar + 1, row.len() as int)) {
        Some(
            CardText {
                owned: row.subrange(2, bar),
                winning: row.subrange(bar + 1, row.len() as int),
            },
        )
    } else {
        None
    }
}

/// Whether every one of `rows` is a card line.
pub open spec fn all_card_lines(rows: Seq<Seq<char>>) -> bool {
    forall|k: int| 0 <= k < rows.len() ==> card_line(#[trigger] rows[k]) is Some
}

/// Whether `text` is a list of cards: it has at least one line, and each of
/// its lines is a card line.
pub open spec fn well_formed(text: Seq<char>) -> bool {
    lines(text).len() > 0 && all_card_lines(lines(text))
}

/// The cards of a list of card lines, in order.
pub open spec fn cards_of_lines(rows: Seq<Seq<char>>) -> Seq<CardText> {
    rows.map_values(|line: Seq<char>| card_line(line).unwrap())
}

/// The cards that `text` lists, line by line. It says what the text holds
/// where the text is well formed.
pub open spec fn cards_of(text: Seq<char>) -> Seq<CardText> {
    cards_of_lines(lines(text))
}

/// A text is plain ASCII if each of its words is: what lies between the
/// words are spaces and tabs.
pub proof fn lemma_words_cover(s: Seq<char>)
    requires
        forall|k: int| 0 <= k < words(s).len() ==> is_ascii_chars(#[trigger] words(s)[k]),
    ensures
        is_ascii_chars(s),
    decreases s.len(),
{
    if s.len() == 0 {
    } else if is_blank(s[0]) {
        let rest = s.drop_first();
        assert(words(s) == words(rest));
        lemma_words_cover(rest);
        assert forall|i: int| 0 <= i < s.len() implies '\0' <= #[trigger] s[i] <= '\u{7f}' by {
            if i > 0 {
                assert(s[i] == rest[i - 1]);
            }
        }
    } else {
        lemma_word_len_bound(s);
        let n = word_len(s) as int;
        let head = s.take(n);
        let rest = s.skip(n);
        let row = words(s);
        assert(row[0] == head);
        assert forall|k: int| 0 <= k < words(rest).len() implies is_ascii_chars(
            #[trigger] words(rest)[k],
        ) by {
            assert(words(rest)[k] == row[k + 1]);
        }
        lemma_words_cover(rest);
        assert forall|i: int| 0 <= i < s.len() implies '\0' <= #[trigger] s[i] <= '\u{7f}' by {
            if i < n {
                assert(s[i] == head[i]);
            } else {
                assert(s[i] == rest[i - n]);
            }
        }
    }
}

/// A card line is plain ASCII.
pub proof fn lemma_card_line_is_ascii(line: Seq<char>)
    requires
        card_line(line) is Some,
    ensures
        is_ascii_chars(line),
{
    let row = words(line);
    let bar = bar_position(row) as int;
    let owned = row.subrange(2, bar);
    let winning = row.subrange(bar + 1, row.len() as int);
    lemma_bar_position_bound(row);
    assert forall|k: int| 0 <= k < row.len() implies is_ascii_chars(#[trigger] row[k]) by {
        let word = row[k];
        if k == 0 {
        } else if k == 1 {
            let id = word.drop_last();
            assert forall|i: int| 0 <= i < word.len() implies '\0' <= #[trigger] word[i]
                <= '\u{7f}' by {
                if i < word.len() - 1 {
                    assert(is_digit(id[i]));
                }
            }
        } else if k < bar {
            assert(is_number(owned[k - 2]));
        } else if k == bar {
        } else {
            assert(is_number(winning[k - bar - 1]));
        }
    }
    lemma_words_cover(line);
}

/// A well-formed list of cards is plain ASCII.
pub proof fn lemma_well_formed_is_ascii(text: Seq<char>)
    requires
        well_formed(text),
    ensures
        is_ascii_chars(text),
{
    assert forall|k: int| 0 <= k < lines(text).len() implies is_ascii_chars(
        #[trigger] lines(text)[k],
    ) by {
        lemma_card_line_is_ascii(lines(text)[k]);
    }
    lemma_lines_cover(text);
}

/// Both rows of the card of a card line hold at least one number and nothing
/// but numbers.
pub proof fn lemma_card_line_holds_numbers(line: Seq<char>)
    requires
        card_line(line) is Some,
    ensures
        card_line(line).unwrap().holds_numbers(),
{
}

/// A text that begins with a line and its line feed lists the card of that
/// line in front of the cards of the rest. It is well formed if the line,
/// without the carriage return that may end it, is a card line and every
/// line of the rest is one.
pub proof fn lemma_cards_of_first_line(line: Seq<char>, rest: Seq<char>)
    requires
        !line.contains('\n'),
    ensures
        cards_of(line + seq!['\n'] + rest) == seq![card_line(strip_cr(line)).unwrap()] + cards_of(
            rest,
        ),
        well_formed(line + seq!['\n'] + rest) <==> card_line(strip_cr(line)) is Some
            && all_card_lines(lines(rest)),
{
    let text = line + seq!['\n'] + rest;
    let first = strip_cr(line);
    lemma_lines_prepend(line, rest);
    assert(cards_of(text) =~= seq![card_line(first).unwrap()] + cards_of(rest));
    if well_formed(text) {
        assert(lines(text)[0] == first);
        assert forall|k: int| 0 <= k < lines(rest).len() implies card_line(
            #[trigger] lines(rest)[k],
        ) is Some by {
            assert(lines(text)[k + 1] == lines(rest)[k]);
        }
    }
    if card_line(first) is Some && all_card_lines(lines(rest)) {
        assert forall|k: int| 0 <= k < lines(text).len() implies card_line(
            #[trigger] lines(text)[k],
        ) is Some by {
            if k > 0 {
                assert(lines(text)[k] == lines(rest)[k - 1]);
            }
        }
    }
}

/// A text of one line without a line feed lists the card of that line, and
/// is well formed if the line is a card line.
pub proof fn lemma_cards_of_last_line(line: Seq<char>)
    requires
        line.len() > 0,
        !line.contains('\n'),
    ensures
        cards_of(line) == seq![card_line(line).unwrap()],
        well_formed(line) <==> card_line(line) is Some,
{
    lemma_lines_single(line);
    assert(cards_of(line) =~= seq![card_line(line).unwrap()]);
    assert(lines(line)[0] == line);
}

} // verus!
