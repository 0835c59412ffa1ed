//! Texts and their lines.
//!
//! A text is a sequence of characters. Its lines are the pieces between line
//! feeds; a carriage return directly before a line feed belongs to the line
//! ending, and a line feed at the very end of the text does not start another
//! line.

use vstd::prelude::*;
use vstd::string::*;
use vstd::utf8::{encode_utf8_decode_utf8, is_ascii_chars};

verus! {

/// One of the ten decimal digits, `0` to `9`.
pub open spec fn is_digit(c: char) -> bool {
    '0' <= c <= '9'
}

/// The number of characters in front of the first line feed of `s`, or the
/// length of `s` if it holds no line feed.
pub open spec fn line_len(s: Seq<char>) -> nat
    decreases s.len(),
{
    if s.len() == 0 || s[0] == '\n' {
        0
    } else {
        1 + line_len(s.drop_first())
    }
}

/// `line` without the carriage return that ends it, if there is one.
pub open spec fn strip_cr(line: Seq<char>) -> Seq<char> {
    if line.len() > 0 && line.last() == '\r' {
        line.drop_last()
    } else {
        line
    }
}

/// The lines of `s`, in order.
///
/// Every line feed ends a line, and a carriage return directly in front of it
/// is dropped with it. What follows the last line feed is a line of its own
/// unless it is empty, and then keeps a carriage return at its end.
pub open spec fn lines(s: Seq<char>) -> Seq<Seq<char>>
    decreases s.len(),
{
    if s.len() == 0 {
        Seq::empty()
    } else {
        let n = line_len(s) as int;
        if n >= s.len() {
            seq![s]
        } else {
            seq![strip_cr(s.take(n))] + lines(s.skip(n + 1))
        }
    }
}

/// `line_len` is the position of the first line feed: if no line feed stands
/// in front of position `n`, and `n` is the end of `s` or holds a line feed,
/// then `line_len(s) == n`.
pub proof fn lemma_line_len(s: Seq<char>, n: int)
    requires
        0 <= n <= s.len(),
        forall|j: int| 0 <= j < n ==> s[j] != '\n',
        n == s.len() || s[n] == '\n',
    ensures
        line_len(s) == n,
    decreases n,
{
    if n > 0 {
        lemma_line_len(s.drop_first(), n - 1);
    }
}

/// A line is never longer than the text that holds it, and is followed by a
/// line feed wherever it is shorter.
pub proof fn lemma_line_len_bound(s: Seq<char>)
    ensures
        line_len(s) <= s.len(),
        line_len(s) < s.len() ==> s[line_len(s) as int] == '\n',
        forall|j: int| 0 <= j < line_len(s) ==> s[j] != '\n',
    decreases s.len(),
{
    if s.len() == 0 || s[0] == '\n' {
    } else {
        let t = s.drop_first();
        lemma_line_len_bound(t);
        assert forall|j: int| 0 <= j < line_len(s) implies s[j] != '\n' by {
            if j > 0 {
                assert(s[j] == t[j - 1]);
            }
        }
    }
}

/// A text without a line feed is one line, unless it is empty.
pub proof fn lemma_lines_single(line: Seq<char>)
    requires
        line.len() > 0,
        !line.contains('\n'),
    ensures
        lines(line) == seq![line],
{
    assert forall|j: int| 0 <= j < line.len() implies line[j] != '\n' by {
        assert(line.contains(line[j]));
    }
    lemma_line_len(line, line.len() as int);
}

/// A text that begins with a line and its line feed has that line, without
/// the carriage return that may end it, in front of the lines of the rest.
pub proof fn lemma_lines_prepend(line: Seq<char>, rest: Seq<char>)
    requires
        !line.contains('\n'),
    ensures
        lines(line + seq!['\n'] + rest) == seq![strip_cr(line)] + lines(rest),
{
    let text = line + seq!['\n'] + rest;
    let n = line.len() as int;
    assert forall|j: int| 0 <= j < n implies text[j] != '\n' by {
        assert(line.contains(line[j]));
    }
    lemma_line_len(text, n);
    assert(text.take(n) =~= line);
    assert(text.skip(n + 1) =~= rest);
}

/// A text is plain ASCII if each of its lines is: what lies between the
/// lines are line feeds and carriage returns.
pub proof fn lemma_lines_cover(s: Seq<char>)
    requires
        forall|k: int| 0 <= k < lines(s).len() ==> is_ascii_chars(#[trigger] lines(s)[k]),
    ensures
        is_ascii_chars(s),
    decreases s.len(),
{
    if s.len() == 0 {
    } else {
        lemma_line_len_bound(s);
        let n = line_len(s) as int;
        if n >= s.len() {
            assert(lines(s)[0] == s);
        } else {
            let head = s.take(n);
            let rest = s.skip(n + 1);
            let all = lines(s);
            assert(all[0] == strip_cr(head));
            assert forall|k: int| 0 <= k < lines(rest).len() implies is_ascii_chars(
                #[trigger] lines(rest)[k],
            ) by {
                assert(lines(rest)[k] == all[k + 1]);
            }
            lemma_lines_cover(rest);
            assert forall|i: int| 0 <= i < s.len() implies '\0' <= #[trigger] s[i] <= '\u{7f}' by {
                if i < n {
                    if i < strip_cr(head).len() {
                        assert(s[i] == strip_cr(head)[i]);
                    }
                } else if i > n {
                    assert(s[i] == rest[i - n - 1]);
                }
            }
        }
    }
}

/// Whether two strings hold the same text.
pub fn same_text(a: &str, b: &str) -> (same: bool)
    ensures
        same == (a@ == b@),
{
    let x = a.as_bytes();
    let y = b.as_bytes();
    proof {
        encode_utf8_decode_utf8(a@);
        encode_utf8_decode_utf8(b@);
    }
    if x.len() != y.len() {
        return false;
    }
    let n = x.len();
    let mut i: usize = 0;
    while i < n
        invariant
            x@ == a.spec_bytes(),
            y@ == b.spec_bytes(),
            n == x@.len(),
            n == y@.len(),
            i <= n,
            forall|j: int| 0 <= j < i ==> x@[j] == y@[j],
        decreases n - i,
    {
        if x[i] != y[i] {
            return false;
        }
        i = i + 1;
    }
    assert(x@ =~= y@);
    true
}

} // verus!
