//! Reading a word list: on each line a word, its rank and the number of
//! times it was counted, with white space between them.

use vstd::prelude::*;
use crate::error::CipherError;
use crate::ranking::{entry_view, entry_views};
use crate::sequences::{first_index, lemma_first_index, leading, lemma_leading};
use crate::text::chars_of;

verus! {

/// `c` is white space.
pub open spec fn is_space(c: char) -> bool {
    ||| '\u{9}' <= c && c <= '\u{d}'
    ||| c == ' '
    ||| c == '\u{85}'
    ||| c == '\u{a0}'
    ||| c == '\u{1680}'
    ||| '\u{2000}' <= c && c <= '\u{200a}'
    ||| c == '\u{2028}'
    ||| c == '\u{2029}'
    ||| c == '\u{202f}'
    ||| c == '\u{205f}'
    ||| c == '\u{3000}'
}

/// `c` is one of the digits `0` to `9`.
pub open spec fn is_digit(c: char) -> bool {
    '0' <= c && c <= '9'
}

/// The test that white space passes, where `wanted` is true, or the test
/// that everything else passes, where it is not.
pub open spec fn space_test(wanted: bool) -> spec_fn(char) -> bool {
    |c: char| is_space(c) == wanted
}

/// The position at or after `i` where white space ends.
pub open spec fn field_start(s: Seq<char>, i: int) -> int {
    i + leading(s.skip(i), space_test(true))
}

/// The position at or after `i` where white space begins or the line ends.
pub open spec fn field_end(s: Seq<char>, i: int) -> int {
    i + leading(s.skip(i), space_test(false))
}

/// Every character is a digit.
pub open spec fn all_digits(d: Seq<char>) -> bool {
    forall|i: int| 0 <= i < d.len() ==> is_digit(#[trigger] d[i])
}

/// The number that the digits write in base ten.
pub open spec fn decimal(d: Seq<char>) -> nat
    decreases d.len(),
{
    if d.len() == 0 {
        0
    } else {
        10 * decimal(d.drop_last()) + (d.last() as int - 48) as nat
    }
}

/// The number that digits write, where there is at least one of them
/// and the number is no more than a `usize` holds.
pub open spec fn digits_value(d: Seq<char>) -> Option<nat> {
    if d.len() > 0 && all_digits(d) && decimal(d) <= usize::MAX {
        Some(decimal(d))
    } else {
        None
    }
}

/// The number that a field writes: digits, with a `+` before them or
/// without.
pub open spec fn number_of(t: Seq<char>) -> Option<nat> {
    if t.len() > 0 && t[0] == '+' {
        digits_value(t.drop_first())
    } else {
        digits_value(t)
    }
}

/// The entry that a line gives: its first field is the word, its second
/// and third must be numbers, and the third is the count. Whatever
/// follows the third field is not looked at.
pub open spec fn entry_of(line: Seq<char>) -> Option<(Seq<char>, nat)> {
    let a = field_start(line, 0);
    let b = field_end(line, a);
    let c = field_start(line, b);
    let d = field_end(line, c);
    let e = field_start(line, d);
    let f = field_end(line, e);
    if number_of(line.subrange(c, d)) is Some && number_of(line.subrange(e, f)) is Some {
        Some((line.subrange(a, b), number_of(line.subrange(e, f))->0))
    } else {
        None
    }
}

/// The lines of a text: what stands between its line feeds. A line feed
/// at the very end begins no further line.
pub open spec fn lines_of(s: Seq<char>) -> Seq<Seq<char>>
    decreases s.len(),
{
    if s.len() == 0 {
        Seq::empty()
    } else {
        let n = first_index(s, '\n');
        if n >= s.len() {
            seq![s]
        } else {
            proof {
                lemma_first_index(s, '\n');
            }
            seq![s.take(n)] + lines_of(s.skip(n + 1))
        }
    }
}

/// Every line of the text gives an entry.
pub open spec fn is_word_list(s: Seq<char>) -> bool {
    forall|i: int| 0 <= i < lines_of(s).len() ==> entry_of(#[trigger] lines_of(s)[i]) is Some
}

/// The entries that the given lines give, line by line.
pub open spec fn entries_of(lines: Seq<Seq<char>>) -> Seq<(Seq<char>, nat)> {
    Seq::new(lines.len(), |i: int| entry_of(lines[i])->0)
}

/// The digits of a number written out weigh at least as much as any of
/// their beginnings.
proof fn lemma_decimal_prefix(d: Seq<char>, k: int)
    requires
        all_digits(d),
        0 <= k <= d.len(),
    ensures
        decimal(d.take(k)) <= decimal(d),
    decreases d.len() - k,
{
    if k < d.len() {
        lemma_decimal_prefix(d, k + 1);
        assert(d.take(k + 1).drop_last() =~= d.take(k));
        assert(is_digit(d[k]));
    } else {
        assert(d.take(k) =~= d);
    }
}

/// Tells whether `c` is white space.
fn is_space_char(c: char) -> (r: bool)
    ensures
        r == is_space(c),
{
    (c >= '\u{9}' && c <= '\u{d}') || c == ' ' || c == '\u{85}' || c == '\u{a0}' || c
        == '\u{1680}' || (c >= '\u{2000}' && c <= '\u{200a}') || c == '\u{2028}' || c
        == '\u{2029}' || c == '\u{202f}' || c == '\u{205f}' || c == '\u{3000}'
}

/// The position at or after `from` where the run of white space ends,
/// or, where `of_spaces` is false, the run of everything else.
fn run_end(line: &Vec<char>, from: usize, of_spaces: bool) -> (r: usize)
    requires
        from <= line.len(),
    ensures
        from <= r <= line.len(),
        r == from + leading(line@.skip(from as int), space_test(of_spaces)),
{
    let mut i: usize = from;
    while i < line.len() && is_space_char(line[i]) == of_spaces
        invariant
            from <= i <= line.len(),
            forall|j: int| from <= j < i ==> is_space(#[trigger] line@[j]) == of_spaces,
        decreases line.len() - i,
    {
        i = i + 1;
    }
    proof {
        let rest = line@.skip(from as int);
        let p = space_test(of_spaces);
        assert forall|j: int| 0 <= j < i - from implies p(#[trigger] rest[j]) by {
            assert(rest[j] == line@[from + j]);
        }
        if i < line.len() {
            assert(rest[i - from] == line@[i as int]);
        }
        lemma_leading(rest, p, i - from);
    }
    i
}

/// Reads the number that stands in a line from `from` up to `to`.
fn read_number(line: &Vec<char>, from: usize, to: usize) -> (r: Option<usize>)
    requires
        from <= to <= line.len(),
    ensures
        match r {
            Some(n) => number_of(line@.subrange(from as int, to as int)) == Some(n as nat),
            None => number_of(line@.subrange(from as int, to as int)) is None,
        },
{
    let ghost t = line@.subrange(from as int, to as int);
    let mut i: usize = from;
    if i < to && line[i] == '+' {
        i = i + 1;
    }
    let start = i;
    let ghost d = line@.subrange(start as int, to as int);
    proof {
        if start > from {
            assert(t[0] == '+');
            assert(t.drop_first() =~= d);
        } else {
            if t.len() > 0 {
                assert(t[0] == line@[from as int]);
            }
            assert(t =~= d);
        }
    }
    assert(number_of(t) == digits_value(d));
    if start == to {
        return None;
    }
    let mut value: usize = 0;
    proof {
        assert(d.take(0) =~= Seq::<char>::empty());
    }
    while i < to
        invariant
            start <= i <= to,
            to <= line.len(),
            d == line@.subrange(start as int, to as int),
            number_of(line@.subrange(from as int, to as int)) == digits_value(d),
            all_digits(d.take(i - start)),
            value == decimal(d.take(i - start)),
        decreases to - i,
    {
        let c = line[i];
        proof {
            assert(d[i - start] == c);
            assert(d.take(i - start + 1).drop_last() =~= d.take(i - start));
        }
        if !(c >= '0' && c <= '9') {
            return None;
        }
        let digit = ((c as u8) - 48) as usize;
        proof {
            assert(all_digits(d.take(i - start + 1)));
            if all_digits(d) {
                lemma_decimal_prefix(d, i - start + 1);
            }
        }
        let tenfold = match value.checked_mul(10) {
            Some(v) => v,
            None => {
                return None;
            },
        };
        value = match tenfold.checked_add(digit) {
            Some(v) => v,
            None => {
                return None;
            },
        };
        i = i + 1;
    }
    proof {
        assert(d.take(to - start) =~= d);
    }
    Some(value)
}

/// Reads the entry that a line gives.
fn read_entry(line: &Vec<char>) -> (r: Option<(String, usize)>)
    ensures
        match r {
            Some(e) => entry_of(line@) == Some(entry_view(e)),
            None => entry_of(line@) is None,
        },
{
    let a = run_end(line, 0, true);
    let b = run_end(line, a, false);
    let c = run_end(line, b, true);
    let d = run_end(line, c, false);
    let e = run_end(line, d, true);
    let f = run_end(line, e, false);
    if read_number(line, c, d).is_none() {
        return None;
    }
    let count = match read_number(line, e, f) {
        Some(n) => n,
        None => {
            return None;
        },
    };
    let mut word = String::new();
    let mut i: usize = a;
    while i < b
        invariant
            a <= i <= b,
            b <= line.len(),
            word@ == line@.subrange(a as int, i as int),
        decreases b - i,
    {
        word.push(line[i]);
        assert(word@ =~= line@.subrange(a as int, i + 1));
        i = i + 1;
    }
    Some((word, count))
}

/// Reads a word list.
///
/// Each line holds a word, its rank and its count, with white space
/// between them and, if one likes, around them; what follows the count
/// is not looked at. Rank and count are written in digits. The entries
/// come out in the order of the lines, each with its word as it is
/// written and its count. A text in which some line does not hold these
/// three fields is no word list; an empty text is an empty one.
pub fn parse_word_list(text: &str) -> (r: Result<Vec<(String, usize)>, CipherError>)
    ensures
        match r {
            Ok(v) => is_word_list(text@) && entry_views(v@) == entries_of(lines_of(text@)),
            Err(e) => !is_word_list(text@) && e == CipherError::UnsupportedInput,
        },
{
    let chars = chars_of(text);
    let ghost s = text@;
    let n = chars.len();
    let mut out: Vec<(String, usize)> = Vec::new();
    let ghost mut done: Seq<Seq<char>> = Seq::empty();
    let mut i: usize = 0;
    proof {
        assert(s.skip(0) =~= s);
        assert(entry_views(out@) =~= entries_of(done));
    }
    while i < n
        invariant
            0 <= i <= n,
            n == chars.len(),
            chars@ == s,
            s == text@,
            done + lines_of(s.skip(i as int)) == lines_of(s),
            forall|k: int| 0 <= k < done.len() ==> entry_of(#[trigger] done[k]) is Some,
            entry_views(out@) == entries_of(done),
        decreases n - i,
    {
        let start = i;
        let ghost rest = s.skip(start as int);
        let mut line: Vec<char> = Vec::new();
        while i < n && chars[i] != '\n'
            invariant
                start <= i <= n,
                n == chars.len(),
                chars@ == s,
                line@ == s.subrange(start as int, i as int),
                forall|j: int| start <= j < i ==> #[trigger] s[j] != '\n',
            decreases n - i,
        {
            line.push(chars[i]);
            assert(line@ =~= s.subrange(start as int, i + 1));
            i = i + 1;
        }
        proof {
            let len = i - start;
            lemma_first_index(rest, '\n');
            assert forall|j: int| 0 <= j < len implies rest[j] != '\n' by {
                assert(rest[j] == s[start + j]);
            }
            if i < n {
                assert(rest[len] == '\n');
                assert(first_index(rest, '\n') == len);
                assert(rest.take(len) =~= line@);
                assert(rest.skip(len + 1) =~= s.skip(i + 1));
            } else {
                if rest.contains('\n') {
                    let k = choose|k: int| 0 <= k < rest.len() && rest[k] == '\n';
                    assert(rest[k] != '\n');
                }
                assert(rest =~= line@);
                assert(s.skip(n as int) =~= Seq::<char>::empty());
            }
            assert(lines_of(rest) =~= seq![line@] + lines_of(
                s.skip(if i < n {
                    i + 1
                } else {
                    i as int
                }),
            ));
            assert(lines_of(s)[done.len() as int] == line@);
        }
        let ghost before = entry_views(out@);
        let entry = match read_entry(&line) {
            Some(entry) => entry,
            None => {
                return Err(CipherError::UnsupportedInput);
            },
        };
        out.push(entry);
        proof {
            let grown = done.push(line@);
            assert(out@.len() == before.len() + 1);
            assert(entry_views(out@) =~= entries_of(grown)) by {
                assert forall|k: int| 0 <= k < grown.len() implies entry_views(out@)[k]
                    == entries_of(grown)[k] by {
                    if k < done.len() {
                        assert(entry_views(out@)[k] == before[k]);
                        assert(grown[k] == done[k]);
                    }
                }
            }
            assert(grown + lines_of(
                s.skip(if i < n {
                    i + 1
                } else {
                    i as int
                }),
            ) =~= done + lines_of(rest));
            done = grown;
        }
        if i < n {
            i = i + 1;
        }
    }
    proof {
        assert(s.skip(n as int) =~= Seq::<char>::empty());
        assert(done =~= lines_of(s));
    }
    Ok(out)
}

} // verus!
