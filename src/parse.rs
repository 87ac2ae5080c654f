//! Reading a puzzle from text: `GROUP_SIZE` non-blank lines of
//! `GROUP_SIZE` whitespace-separated fields, each a placeholder (`X` or
//! `x`) or a value from 1 to `GROUP_SIZE`.

use vstd::prelude::*;

use crate::element::GROUP_SIZE;
use crate::model::clues_valid;

verus! {

/// Why a text is not a puzzle. Lines and columns count from 1, lines
/// including the blank ones.
#[derive(PartialEq, Eq, Structural, Clone, Copy, Debug)]
pub enum ParseError {
    /// A non-blank line does not hold `GROUP_SIZE` fields
    ColumnCount { line: usize, count: usize },
    /// A field is neither a placeholder nor a number
    NotANumber { line: usize, col: usize },
    /// A number outside `1..=GROUP_SIZE`
    OutOfRange { line: usize, col: usize, value: usize },
    /// The text does not hold `GROUP_SIZE` non-blank lines: the number
    /// found, or one more than `GROUP_SIZE` when there are too many
    RowCount(usize),
}

/// A clue: row and column from 0, value from 1.
pub type Clue = (usize, usize, usize);

/// The characters `char::is_whitespace` accepts: Unicode's White_Space.
pub open spec fn is_space(c: char) -> bool {
    let u = c as u32;
    ||| 9 <= u <= 13
    ||| u == 32
    ||| u == 0x85
    ||| u == 0xA0
    ||| u == 0x1680
    ||| 0x2000 <= u <= 0x200A
    ||| u == 0x2028
    ||| u == 0x2029
    ||| u == 0x202F
    ||| u == 0x205F
    ||| u == 0x3000
}

/// The words of `s` after the partial word `cur`: maximal runs of
/// characters that are not whitespace.
pub open spec fn split_acc(s: Seq<char>, cur: Seq<char>) -> Seq<Seq<char>>
    decreases s.len(),
{
    if s.len() == 0 {
        if cur.len() > 0 {
            seq![cur]
        } else {
            seq![]
        }
    } else if is_space(s[0]) {
        (if cur.len() > 0 {
            seq![cur]
        } else {
            seq![]
        }) + split_acc(s.drop_first(), seq![])
    } else {
        split_acc(s.drop_first(), cur.push(s[0]))
    }
}

/// The whitespace-separated words of `s`.
pub open spec fn words(s: Seq<char>) -> Seq<Seq<char>> {
    split_acc(s, seq![])
}

pub open spec fn is_digit(c: char) -> bool {
    48 <= (c as u32) <= 57
}

pub open spec fn digits(d: Seq<char>) -> bool {
    forall|i: int| 0 <= i < d.len() ==> is_digit(#[trigger] d[i])
}

/// The value of a string of decimal digits.
pub open spec fn dec_value(d: Seq<char>) -> nat
    decreases d.len(),
{
    if d.len() == 0 {
        0
    } else {
        dec_value(d.drop_last()) * 10 + ((d.last() as u32) - 48) as nat
    }
}

/// The digits of a number text: what follows an optional leading `+`.
pub open spec fn digits_of(f: Seq<char>) -> Seq<char> {
    if f.len() > 0 && f[0] == '+' {
        f.drop_first()
    } else {
        f
    }
}

/// The texts `str::parse::<usize>` accepts: an optional `+`, then at least
/// one digit, with a value that fits.
pub open spec fn number_of(f: Seq<char>) -> Option<nat> {
    let d = digits_of(f);
    if d.len() > 0 && digits(d) && dec_value(d) <= usize::MAX {
        Some(dec_value(d))
    } else {
        None
    }
}

pub open spec fn is_placeholder(f: Seq<char>) -> bool {
    f == seq!['X'] || f == seq!['x']
}

/// The meaning of field `col` of line `li` (both from 0) in row `row`.
pub open spec fn field_result(f: Seq<char>, li: int, row: int, col: int) -> Result<
    Option<Clue>,
    ParseError,
> {
    if is_placeholder(f) {
        Ok(None)
    } else {
        match number_of(f) {
            None => Err(ParseError::NotANumber { line: (li + 1) as usize, col: (col + 1) as usize }),
            Some(v) => if v == 0 || v > GROUP_SIZE {
                Err(
                    ParseError::OutOfRange {
                        line: (li + 1) as usize,
                        col: (col + 1) as usize,
                        value: v as usize,
                    },
                )
            } else {
                Ok(Some((row as usize, col as usize, v as usize)))
            },
        }
    }
}

/// The clues of the fields of a line from field `col` on, after `acc`.
pub open spec fn line_from(w: Seq<Seq<char>>, li: int, row: int, col: int, acc: Seq<Clue>) -> Result<
    Seq<Clue>,
    ParseError,
>
    decreases w.len() - col,
{
    if col >= w.len() || col < 0 {
        Ok(acc)
    } else {
        match field_result(w[col], li, row, col) {
            Err(e) => Err(e),
            Ok(None) => line_from(w, li, row, col + 1, acc),
            Ok(Some(c)) => line_from(w, li, row, col + 1, acc.push(c)),
        }
    }
}

/// The clues of the lines from `li` on, with `row` non-blank lines read so
/// far and `acc` their clues.
pub open spec fn parse_from(lines: Seq<Seq<char>>, li: int, row: int, acc: Seq<Clue>) -> Result<
    Seq<Clue>,
    ParseError,
>
    decreases lines.len() - li,
{
    if li >= lines.len() || li < 0 {
        if row == GROUP_SIZE {
            Ok(acc)
        } else {
            Err(ParseError::RowCount(row as usize))
        }
    } else {
        let w = words(lines[li]);
        if w.len() == 0 {
            parse_from(lines, li + 1, row, acc)
        } else if w.len() != GROUP_SIZE {
            Err(ParseError::ColumnCount { line: (li + 1) as usize, count: w.len() as usize })
        } else if row >= GROUP_SIZE {
            Err(ParseError::RowCount((GROUP_SIZE + 1) as usize))
        } else {
            match line_from(w, li, row, 0, acc) {
                Err(e) => Err(e),
                Ok(a) => parse_from(lines, li + 1, row + 1, a),
            }
        }
    }
}

/// The clues a text holds, in reading order, or the first fault in it.
pub open spec fn parse_text(lines: Seq<Seq<char>>) -> Result<Seq<Clue>, ParseError> {
    parse_from(lines, 0, 0, seq![])
}

pub open spec fn lines_view(lines: Seq<String>) -> Seq<Seq<char>> {
    lines.map_values(|s: String| s@)
}

fn is_space_char(c: char) -> (r: bool)
    ensures
        r == is_space(c),
{
    let u = c as u32;
    (9 <= u && u <= 13) || u == 32 || u == 0x85 || u == 0xA0 || u == 0x1680 || (0x2000 <= u && u
        <= 0x200A) || u == 0x2028 || u == 0x2029 || u == 0x202F || u == 0x205F || u == 0x3000
}

pub open spec fn views(v: Seq<Vec<char>>) -> Seq<Seq<char>> {
    v.map_values(|w: Vec<char>| w@)
}

/// The whitespace-separated words of `s`.
pub fn split_words(s: &str) -> (r: Vec<Vec<char>>)
    ensures
        views(r@) == words(s@),
{
    let n = s.unicode_len();
    let mut done: Vec<Vec<char>> = Vec::new();
    let mut cur: Vec<char> = Vec::new();
    let mut i: usize = 0;
    assert(s@.skip(0) =~= s@);
    while i < n
        invariant
            n == s@.len(),
            i <= n,
            words(s@) == views(done@) + split_acc(s@.skip(i as int), cur@),
        decreases n - i,
    {
        let c = s.get_char(i);
        let ghost rest = s@.skip(i as int);
        assert(rest[0] == c);
        assert(rest.drop_first() =~= s@.skip(i + 1));
        if is_space_char(c) {
            if cur.len() > 0 {
                let ghost before = views(done@);
                let ghost w = cur@;
                done.push(cur);
                assert(views(done@) =~= before + seq![w]);
                assert(before + seq![w] + split_acc(s@.skip(i + 1), seq![]) =~= before + (seq![w]
                    + split_acc(s@.skip(i + 1), seq![])));
            } else {
                assert(seq![] + split_acc(s@.skip(i + 1), seq![]) =~= split_acc(s@.skip(i + 1), seq![]));
            }
            cur = Vec::new();
            assert(cur@ =~= seq![]);
        } else {
            cur.push(c);
        }
        i += 1;
    }
    assert(s@.skip(n as int) =~= seq![]);
    if cur.len() > 0 {
        let ghost before = views(done@);
        let ghost w = cur@;
        done.push(cur);
        assert(views(done@) =~= before + seq![w]);
    } else {
        assert(views(done@) + seq![] =~= views(done@));
    }
    done
}

/// Read a number as `str::parse::<usize>` does: an optional `+`, then
/// decimal digits, with a value that fits.
pub fn parse_number(f: &Vec<char>) -> (r: Option<usize>)
    ensures
        r == (match number_of(f@) {
            Some(v) => Some(v as usize),
            None => None::<usize>,
        }),
{
    let n = f.len();
    let mut start: usize = 0;
    if n > 0 && f[0] == '+' {
        start = 1;
    }
    let ghost d = digits_of(f@);
    assert(d =~= f@.skip(start as int));
    if start >= n {
        assert(d.len() == 0);
        return None;
    }
    let mut acc: Option<usize> = Some(0);
    let mut k: usize = start;
    assert(d.take(0) =~= seq![]);
    while k < n
        invariant
            start <= k <= n,
            n == f@.len(),
            d == f@.skip(start as int),
            d == digits_of(f@),
            forall|j: int| 0 <= j < k - start ==> is_digit(#[trigger] d[j]),
            acc == (if dec_value(d.take(k - start)) <= usize::MAX {
                Some(dec_value(d.take(k - start)) as usize)
            } else {
                None::<usize>
            }),
        decreases n - k,
    {
        let c = f[k];
        let u = c as u32;
        assert(d[k - start] == c);
        if u < 48 || u > 57 {
            assert(!is_digit(d[k - start]));
            assert(!digits(d));
            assert(digits_of(f@) == d);
            assert(number_of(f@) == None::<nat>);
            return None;
        }
        let ghost j = k - start;
        assert(d.take(j + 1).drop_last() =~= d.take(j));
        assert(d.take(j + 1).last() == c);
        acc = match acc {
            Some(a) => match a.checked_mul(10) {
                Some(m) => m.checked_add((u - 48) as usize),
                None => None,
            },
            None => None,
        };
        k += 1;
    }
    assert(d.take(n - start) =~= d);
    acc
}

/// The meaning of field `col` of line `li` (both from 0) in row `row`.
fn parse_field(f: &Vec<char>, li: usize, row: usize, col: usize) -> (r: Result<
    Option<Clue>,
    ParseError,
>)
    requires
        li < usize::MAX,
        row < GROUP_SIZE,
        col < GROUP_SIZE,
    ensures
        r == field_result(f@, li as int, row as int, col as int),
{
    if f.len() == 1 && (f[0] == 'X' || f[0] == 'x') {
        assert(f@ =~= seq!['X'] || f@ =~= seq!['x']);
        return Ok(None);
    }
    assert(!is_placeholder(f@)) by {
        if f@ == seq!['X'] || f@ == seq!['x'] {
            assert(f@.len() == 1);
        }
    }
    match parse_number(f) {
        None => Err(ParseError::NotANumber { line: li + 1, col: col + 1 }),
        Some(val) => {
            if val == 0 || val > GROUP_SIZE {
                Err(ParseError::OutOfRange { line: li + 1, col: col + 1, value: val })
            } else {
                Ok(Some((row, col, val)))
            }
        },
    }
}

/// The clues a text holds, in reading order, or the first fault in it.
pub fn parse_clues(lines: &Vec<String>) -> (r: Result<Vec<Clue>, ParseError>)
    ensures
        match r {
            Ok(v) => {
                &&& parse_text(lines_view(lines@)) == Ok::<Seq<Clue>, ParseError>(v@)
                &&& clues_valid(v@)
            },
            Err(e) => parse_text(lines_view(lines@)) == Err::<Seq<Clue>, ParseError>(e),
        },
{
    let ghost text = lines_view(lines@);
    let mut clues: Vec<Clue> = Vec::new();
    let mut row: usize = 0;
    let mut li: usize = 0;
    while li < lines.len()
        invariant
            li <= lines@.len(),
            text == lines_view(lines@),
            row <= GROUP_SIZE,
            clues_valid(clues@),
            parse_text(text) == parse_from(text, li as int, row as int, clues@),
        decreases lines@.len() - li,
    {
        // parse the line: fields separated by white space
        let fields = split_words(lines[li].as_str());
        assert(text[li as int] == lines@[li as int]@);
        if fields.len() == 0 {
            li += 1;
            continue;
        }
        if fields.len() != GROUP_SIZE {
            return Err(ParseError::ColumnCount { line: li + 1, count: fields.len() });
        }
        if row >= GROUP_SIZE {
            return Err(ParseError::RowCount(GROUP_SIZE + 1));
        }
        let ghost w = views(fields@);
        let ghost start = clues@;
        let mut col: usize = 0;
        while col < GROUP_SIZE
            invariant
                col <= GROUP_SIZE,
                li < lines@.len(),
                row < GROUP_SIZE,
                fields@.len() == GROUP_SIZE,
                w == views(fields@),
                w == words(text[li as int]),
                lines@.len() <= usize::MAX,
                text == lines_view(lines@),
                clues_valid(clues@),
                parse_text(text) == parse_from(text, li as int, row as int, start),
                parse_from(text, li as int, row as int, start) == match line_from(
                    w,
                    li as int,
                    row as int,
                    col as int,
                    clues@,
                ) {
                    Err(e) => Err(e),
                    Ok(a) => parse_from(text, li + 1, row + 1, a),
                },
            decreases GROUP_SIZE - col,
        {
            assert(w[col as int] == fields@[col as int]@);
            match parse_field(&fields[col], li, row, col) {
                Err(e) => {
                    return Err(e);
                },
                Ok(None) => {},
                Ok(Some(clue)) => {
                    clues.push(clue);
                },
            }
            col += 1;
        }
        assert(line_from(w, li as int, row as int, GROUP_SIZE as int, clues@) == Ok::<
            Seq<Clue>,
            ParseError,
        >(clues@));
        row += 1;
        li += 1;
    }
    if row != GROUP_SIZE {
        return Err(ParseError::RowCount(row));
    }
    Ok(clues)
}

} // verus!
