//! Reading a move typed as two 1-based coordinates, row then column.
use vstd::prelude::*;

verus! {

/// Why a typed line does not name a cell of the board.
#[derive(Clone, Copy, PartialEq, Eq, Structural, Debug)]
pub enum InputError {
    /// The line does not hold exactly two words.
    WrongCount,
    /// One of the two words is not made of decimal digits.
    NotNumeric,
    /// One of the two numbers is 0 or larger than the side of the board.
    OutOfRange,
}

/// Space, tab, line feed, form feed or carriage return.
pub open spec fn is_space(c: u8) -> bool {
    c == 32 || c == 9 || c == 10 || c == 12 || c == 13
}

/// A decimal digit.
pub open spec fn is_digit(c: u8) -> bool {
    48 <= c <= 57
}

/// The length of the run of non-space bytes at the start of `b`.
pub open spec fn word_len(b: Seq<u8>) -> nat
    decreases b.len(),
{
    if b.len() == 0 || is_space(b[0]) {
        0
    } else {
        1 + word_len(b.drop_first())
    }
}

/// The maximal runs of non-space bytes of `b`, in order.
pub open spec fn words(b: Seq<u8>) -> Seq<Seq<u8>>
    decreases b.len(),
    via words_decreases
{
    if b.len() == 0 {
        Seq::empty()
    } else if is_space(b[0]) {
        words(b.drop_first())
    } else {
        seq![b.take(word_len(b) as int)] + words(b.skip(word_len(b) as int))
    }
}

/// Each word taken off the front of a line is at least one byte long.
#[via_fn]
proof fn words_decreases(b: Seq<u8>) {
    lemma_word_len(b);
}

/// Every byte of `w` is a decimal digit.
pub open spec fn all_digits(w: Seq<u8>) -> bool {
    forall|k: int| 0 <= k < w.len() ==> is_digit(#[trigger] w[k])
}

/// The number that the decimal digits `w` write.
pub open spec fn digits_value(w: Seq<u8>) -> nat
    decreases w.len(),
{
    if w.len() == 0 {
        0
    } else {
        digits_value(w.drop_last()) * 10 + (w.last() - 48) as nat
    }
}

/// A number typed for a board of side `size` names a row or column.
pub open spec fn in_board(v: nat, size: nat) -> bool {
    1 <= v <= size
}

/// The cell, 0-based, that the line `b` names on a board of side `size`:
/// it must hold exactly two words, both decimal numbers from 1 to `size`.
pub open spec fn move_of(b: Seq<u8>, size: nat) -> Result<(usize, usize), InputError> {
    let ws = words(b);
    if ws.len() != 2 {
        Err(InputError::WrongCount)
    } else if !all_digits(ws[0]) || !all_digits(ws[1]) {
        Err(InputError::NotNumeric)
    } else if !in_board(digits_value(ws[0]), size) || !in_board(digits_value(ws[1]), size) {
        Err(InputError::OutOfRange)
    } else {
        Ok(((digits_value(ws[0]) - 1) as usize, (digits_value(ws[1]) - 1) as usize))
    }
}

/// The word at the start of `b` lies within `b`, and is not empty when `b`
/// starts with a non-space byte.
proof fn lemma_word_len(b: Seq<u8>)
    ensures
        word_len(b) <= b.len(),
        b.len() > 0 && !is_space(b[0]) ==> word_len(b) >= 1,
    decreases b.len(),
{
    if b.len() > 0 && !is_space(b[0]) {
        lemma_word_len(b.drop_first());
    }
}

/// A run of non-space bytes that ends at a space or at the end of `b` is
/// the word at the start of `b`.
proof fn lemma_word_len_exact(b: Seq<u8>, j: int)
    requires
        0 <= j <= b.len(),
        forall|k: int| 0 <= k < j ==> !is_space(#[trigger] b[k]),
        j == b.len() || is_space(b[j]),
    ensures
        word_len(b) == j,
    decreases j,
{
    if j > 0 {
        let d = b.drop_first();
        assert forall|k: int| 0 <= k < j - 1 implies !is_space(#[trigger] d[k]) by {
            assert(d[k] == b[k + 1]);
        }
        if j < b.len() {
            assert(d[j - 1] == b[j]);
        }
        lemma_word_len_exact(d, j - 1);
    }
}

/// The words of the line `b`, found one by one: the number of words, and the
/// bounds of the first two.
fn scan_words(b: &[u8]) -> (r: (usize, (usize, usize), (usize, usize)))
    ensures
        r.0 == words(b@).len() || (r.0 == 3 && words(b@).len() > 2),
        r.0 >= 1 ==> r.1.0 <= r.1.1 <= b@.len() && b@.subrange(r.1.0 as int, r.1.1 as int)
            == words(b@)[0],
        r.0 >= 2 ==> r.2.0 <= r.2.1 <= b@.len() && b@.subrange(r.2.0 as int, r.2.1 as int)
            == words(b@)[1],
{
    let n = b.len();
    let ghost mut found: Seq<Seq<u8>> = Seq::empty();
    let mut count: usize = 0;
    let mut first: (usize, usize) = (0, 0);
    let mut second: (usize, usize) = (0, 0);
    let mut i: usize = 0;
    proof {
        assert(b@.subrange(0, n as int) =~= b@);
        assert(found + words(b@) =~= words(b@));
    }
    while i < n && count < 3
        invariant
            n == b@.len(),
            i <= n,
            words(b@) == found + words(b@.subrange(i as int, n as int)),
            count == found.len(),
            count <= 3,
            count >= 1 ==> first.0 <= first.1 <= n && b@.subrange(first.0 as int, first.1 as int)
                == found[0],
            count >= 2 ==> second.0 <= second.1 <= n && b@.subrange(second.0 as int, second.1 as int)
                == found[1],
        decreases n - i,
    {
        let ghost rest = b@.subrange(i as int, n as int);
        if b[i] == 32 || b[i] == 9 || b[i] == 10 || b[i] == 12 || b[i] == 13 {
            proof {
                assert(rest.drop_first() =~= b@.subrange(i + 1, n as int));
            }
            i = i + 1;
        } else {
            let start = i;
            let mut j: usize = i + 1;
            while j < n && !(b[j] == 32 || b[j] == 9 || b[j] == 10 || b[j] == 12 || b[j] == 13)
                invariant
                    n == b@.len(),
                    start < j <= n,
                    forall|k: int| start <= k < j ==> !is_space(#[trigger] b@[k]),
                decreases n - j,
            {
                j = j + 1;
            }
            proof {
                lemma_word_len_exact(rest, j - start);
                assert(rest.take(j - start) =~= b@.subrange(start as int, j as int));
                assert(rest.skip(j - start) =~= b@.subrange(j as int, n as int));
                found = found.push(b@.subrange(start as int, j as int));
                assert(words(b@) =~= found + words(b@.subrange(j as int, n as int)));
            }
            if count == 0 {
                first = (start, j);
            } else if count == 1 {
                second = (start, j);
            }
            count = count + 1;
            i = j;
        }
    }
    proof {
        if count < 3 {
            assert(b@.subrange(n as int, n as int) =~= Seq::<u8>::empty());
        }
    }
    (count, first, second)
}

/// Whether every byte of `b[s..e]` is a decimal digit.
fn digits_only(b: &[u8], s: usize, e: usize) -> (r: bool)
    requires
        s <= e <= b@.len(),
    ensures
        r == all_digits(b@.subrange(s as int, e as int)),
{
    let ghost w = b@.subrange(s as int, e as int);
    let mut k: usize = s;
    while k < e
        invariant
            s <= k <= e <= b@.len(),
            w == b@.subrange(s as int, e as int),
            forall|kk: int| 0 <= kk < k - s ==> is_digit(#[trigger] w[kk]),
        decreases e - k,
    {
        if b[k] < 48 || b[k] > 57 {
            assert(!is_digit(w[k - s]));
            return false;
        }
        k = k + 1;
    }
    true
}

/// The 0-based coordinate that the decimal digits `b[s..e]` write, when the
/// number lies between 1 and `size`.
fn coordinate(b: &[u8], s: usize, e: usize, size: usize) -> (r: Option<usize>)
    requires
        s <= e <= b@.len(),
        all_digits(b@.subrange(s as int, e as int)),
    ensures
        r == (if in_board(digits_value(b@.subrange(s as int, e as int)), size as nat) {
            Some((digits_value(b@.subrange(s as int, e as int)) - 1) as usize)
        } else {
            None
        }),
{
    let ghost w = b@.subrange(s as int, e as int);
    let mut value: usize = 0;
    let mut big = false;
    let mut k: usize = s;
    while k < e
        invariant
            s <= k <= e <= b@.len(),
            w == b@.subrange(s as int, e as int),
            all_digits(w),
            big ==> digits_value(w.take(k - s)) > size,
            !big ==> value == digits_value(w.take(k - s)) && value <= size,
        decreases e - k,
    {
        let ghost prev = w.take(k - s);
        proof {
            assert(is_digit(w[k - s]));
            assert(w.take(k + 1 - s).drop_last() =~= prev);
            assert(w.take(k + 1 - s).last() == b@[k as int]);
        }
        let d = (b[k] - 48) as usize;
        if !big {
            match value.checked_mul(10) {
                Some(m) => match m.checked_add(d) {
                    Some(v) => {
                        if v <= size {
                            value = v;
                        } else {
                            big = true;
                        }
                    },
                    None => {
                        big = true;
                    },
                },
                None => {
                    big = true;
                },
            }
        }
        k = k + 1;
    }
    proof {
        assert(w.take(e - s) =~= w);
    }
    if big || value == 0 {
        None
    } else {
        Some(value - 1)
    }
}

/// Reads a move typed as two 1-based numbers, row then column, separated by
/// spaces, into the 0-based cell it names on a board of side `size`.
pub fn parse_move(line: &[u8], size: usize) -> (r: Result<(usize, usize), InputError>)
    ensures
        r == move_of(line@, size as nat),
{
    let (count, first, second) = scan_words(line);
    if count != 2 {
        return Err(InputError::WrongCount);
    }
    if !digits_only(line, first.0, first.1) || !digits_only(line, second.0, second.1) {
        return Err(InputError::NotNumeric);
    }
    let row = coordinate(line, first.0, first.1, size);
    let col = coordinate(line, second.0, second.1, size);
    match (row, col) {
        (Some(row), Some(col)) => Ok((row, col)),
        _ => Err(InputError::OutOfRange),
    }
}

} // verus!
