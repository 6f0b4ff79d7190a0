//! Datasets as text: comma-separated rows with a label in the last column, and lines of a label
//! and the indices of set features.
use crate::bits::byte_of;
use crate::booleanizer::Number;
use crate::dyadic::{
    f64_value, lemma_pow2_consts, lemma_pow2_step, power_of_two, Dyadic, INFINITY_BITS, SIGN_BIT,
};
use crate::text::chars_of;
use vstd::arithmetic::power2::{lemma2_to64, lemma_pow2_pos, lemma_pow2_strictly_increases, pow2};
use vstd::prelude::*;
use vstd::slice::{slice_subrange, slice_to_vec};

verus! {

/// What is wrong with a line.
#[derive(Clone, Copy, Debug, PartialEq, Eq, Structural)]
pub enum DataErrorKind {
    /// A feature is not a number.
    NotNumeric,
    /// A feature is not an integer.
    NotInteger,
    /// The label is not a class.
    BadLabel,
    /// An index is not one.
    BadIndex,
}

/// A line that cannot be read, counted from 1.
#[derive(Clone, Copy, Debug, PartialEq, Eq, Structural)]
pub struct DataError {
    pub kind: DataErrorKind,
    pub line: usize,
}

/// What a line holds.
#[verifier::ext_equal]
pub enum LineModel {
    /// Nothing.
    Skip,
    /// A sample and its label.
    Row { x: Seq<u8>, y: usize },
    /// Something that cannot be read.
    Bad { kind: DataErrorKind },
}

/// What a line holds.
pub enum Line {
    Skip,
    Row { x: Vec<u8>, y: usize },
    Bad { kind: DataErrorKind },
}

impl View for Line {
    type V = LineModel;

    open spec fn view(&self) -> LineModel {
        match self {
            Line::Skip => LineModel::Skip,
            Line::Row { x, y } => LineModel::Row { x: x@, y: *y },
            Line::Bad { kind } => LineModel::Bad { kind: *kind },
        }
    }
}

/// A character that separates: one with the property `White_Space` of Unicode.
pub open spec fn is_space(c: char) -> bool {
    let u = c as u32;
    9 <= u <= 13 || u == 0x20 || u == 0x85 || u == 0xA0 || u == 0x1680 || 0x2000 <= u <= 0x200A || u
        == 0x2028 || u == 0x2029 || u == 0x202F || u == 0x205F || u == 0x3000
}

/// Whether a character separates.
fn space(c: char) -> (r: bool)
    ensures
        r == is_space(c),
{
    let u: u32 = c as u32;
    (9 <= u && u <= 13) || u == 0x20 || u == 0x85 || u == 0xA0 || u == 0x1680 || (0x2000 <= u && u
        <= 0x200A) || u == 0x2028 || u == 0x2029 || u == 0x202F || u == 0x205F || u == 0x3000
}

/// The parts of `t` from place `i` on that `sep` separates, the first of which begins with `cur`.
pub open spec fn parts_from(t: Seq<char>, sep: char, i: int, cur: Seq<char>) -> Seq<Seq<char>>
    decreases t.len() - i,
{
    if i >= t.len() {
        seq![cur]
    } else if t[i] == sep {
        seq![cur] + parts_from(t, sep, i + 1, seq![])
    } else {
        parts_from(t, sep, i + 1, cur.push(t[i]))
    }
}

/// The parts of a text that `sep` separates.
pub open spec fn parts_of(t: Seq<char>, sep: char) -> Seq<Seq<char>> {
    parts_from(t, sep, 0, seq![])
}

/// A word, unless it is empty.
pub open spec fn word_if(cur: Seq<char>) -> Seq<Seq<char>> {
    if cur.len() > 0 {
        seq![cur]
    } else {
        seq![]
    }
}

/// The words of `t` from place `i` on, the first of which begins with `cur`.
pub open spec fn words_from(t: Seq<char>, i: int, cur: Seq<char>) -> Seq<Seq<char>>
    decreases t.len() - i,
{
    if i >= t.len() {
        word_if(cur)
    } else if is_space(t[i]) {
        word_if(cur) + words_from(t, i + 1, seq![])
    } else {
        words_from(t, i + 1, cur.push(t[i]))
    }
}

/// The words of a text, which spaces separate.
pub open spec fn words_of(t: Seq<char>) -> Seq<Seq<char>> {
    words_from(t, 0, seq![])
}

/// The place of the first character from `i` on that is no space, or the length.
pub open spec fn space_end(t: Seq<char>, i: int) -> int
    decreases t.len() - i,
{
    if i >= t.len() || !is_space(t[i]) {
        i
    } else {
        space_end(t, i + 1)
    }
}

/// The place behind the last character before `j` that is no space, or `lo`.
pub open spec fn space_start(t: Seq<char>, lo: int, j: int) -> int
    decreases j - lo,
{
    if j <= lo || !is_space(t[j - 1]) {
        j
    } else {
        space_start(t, lo, j - 1)
    }
}

/// A text without the spaces at its ends.
pub open spec fn trimmed(t: Seq<char>) -> Seq<char> {
    let lo = space_end(t, 0);
    if lo >= t.len() {
        seq![]
    } else {
        t.subrange(lo, space_start(t, lo, t.len() as int))
    }
}

/// A decimal digit.
pub open spec fn is_digit(c: char) -> bool {
    '0' <= c <= '9'
}

/// All characters are digits.
pub open spec fn all_digits(t: Seq<char>) -> bool {
    forall|i: int| 0 <= i < t.len() ==> is_digit(#[trigger] t[i])
}

/// The number with the first `n` of the given digits.
pub open spec fn digits_value(t: Seq<char>, n: nat) -> int
    decreases n,
{
    if n == 0 {
        0
    } else {
        10 * digits_value(t, (n - 1) as nat) + (t[n - 1] as int - '0' as int)
    }
}

/// The number that digits write, if there are any and nothing else.
pub open spec fn natural_of(t: Seq<char>) -> Option<int> {
    if t.len() > 0 && all_digits(t) {
        Some(digits_value(t, t.len()))
    } else {
        None
    }
}

/// The size that a text writes: digits, with or without a plus sign.
pub open spec fn size_of_text(t: Seq<char>) -> Option<usize> {
    let digits = if t.len() > 0 && t[0] == '+' {
        t.drop_first()
    } else {
        t
    };
    match natural_of(digits) {
        Some(v) => if v <= usize::MAX {
            Some(v as usize)
        } else {
            None
        },
        None => None,
    }
}

/// The integer of 64 bits that a text writes: digits, with or without a sign.
pub open spec fn integer_of(t: Seq<char>) -> Option<i64> {
    let signed = t.len() > 0 && (t[0] == '+' || t[0] == '-');
    let minus = signed && t[0] == '-';
    match natural_of(
        if signed {
            t.drop_first()
        } else {
            t
        },
    ) {
        Some(v) => if minus && v <= 0x8000_0000_0000_0000 {
            Some((-v) as i64)
        } else if !minus && v <= 0x7FFF_FFFF_FFFF_FFFF {
            Some(v as i64)
        } else {
            None
        },
        None => None,
    }
}

/// The columns of a line, or none if the line is to be skipped: it is empty, or has only one.
pub open spec fn columns_of(line: Seq<char>) -> Seq<Seq<char>> {
    let t = trimmed(line);
    let cols = parts_of(t, ',');
    if t.len() == 0 || cols.len() < 2 {
        seq![]
    } else {
        Seq::new(cols.len(), |i: int| trimmed(cols[i]))
    }
}

/// Line `i` of a table of features that are 0 or not. A first line whose first column is no
/// integer is a heading.
pub open spec fn binary_line(line: Seq<char>, i: int) -> LineModel {
    let cols = columns_of(line);
    if cols.len() == 0 {
        LineModel::Skip
    } else if i == 0 && integer_of(cols[0]) is None {
        LineModel::Skip
    } else {
        let n = (cols.len() - 1) as nat;
        if exists|k: int| 0 <= k < n && integer_of(#[trigger] cols[k]) is None {
            LineModel::Bad { kind: DataErrorKind::NotInteger }
        } else {
            match size_of_text(cols[n as int]) {
                Some(y) => LineModel::Row {
                    x: Seq::new(n, |k: int| byte_of(integer_of(cols[k])->0 != 0)),
                    y,
                },
                None => LineModel::Bad { kind: DataErrorKind::BadLabel },
            }
        }
    }
}

/// Index `f` is among the words from the second on.
pub open spec fn listed(words: Seq<Seq<char>>, f: int) -> bool {
    exists|k: int| 1 <= k < words.len() && size_of_text(#[trigger] words[k]) == Some(f as usize)
}

/// A line of a label and the indices of set features. Indices beyond the features are ignored.
pub open spec fn sparse_line(line: Seq<char>, n_features: nat) -> LineModel {
    let words = words_of(line);
    if words.len() == 0 {
        LineModel::Skip
    } else {
        match size_of_text(words[0]) {
            None => LineModel::Bad { kind: DataErrorKind::BadLabel },
            Some(y) => if exists|k: int|
                1 <= k < words.len() && size_of_text(#[trigger] words[k]) is None {
                LineModel::Bad { kind: DataErrorKind::BadIndex }
            } else {
                LineModel::Row { x: Seq::new(n_features, |f: int| byte_of(listed(words, f))), y }
            },
        }
    }
}

/// What the first `n` lines hold, or the first line that cannot be read.
pub open spec fn dataset_of(lines: Seq<LineModel>, n: nat) -> Result<
    (Seq<Seq<u8>>, Seq<usize>),
    DataError,
>
    decreases n,
{
    if n == 0 {
        Ok((seq![], seq![]))
    } else {
        match dataset_of(lines, (n - 1) as nat) {
            Ok((xs, ys)) => match lines[n - 1] {
                LineModel::Skip => Ok((xs, ys)),
                LineModel::Row { x, y } => Ok((xs.push(x), ys.push(y))),
                LineModel::Bad { kind } => Err(DataError { kind, line: n as usize }),
            },
            Err(e) => Err(e),
        }
    }
}

/// The rows as values.
pub open spec fn row_bytes(xs: Seq<Vec<u8>>) -> Seq<Seq<u8>> {
    Seq::new(xs.len(), |i: int| xs[i]@)
}

/// The result of reading a dataset as values.
pub open spec fn dataset_view(r: Result<(Vec<Vec<u8>>, Vec<usize>), DataError>) -> Result<
    (Seq<Seq<u8>>, Seq<usize>),
    DataError,
> {
    match r {
        Ok((xs, ys)) => Ok((row_bytes(xs@), ys@)),
        Err(e) => Err(e),
    }
}

/// The lines of a table of features that are 0 or not.
pub open spec fn binary_lines(text: Seq<char>) -> Seq<LineModel> {
    let lines = parts_of(text, '\n');
    Seq::new(lines.len(), |i: int| binary_line(lines[i], i))
}

/// The lines of a list of set features.
pub open spec fn sparse_lines(text: Seq<char>, n_features: nat) -> Seq<LineModel> {
    let lines = parts_of(text, '\n');
    Seq::new(lines.len(), |i: int| sparse_line(lines[i], n_features))
}

/// Characters as values.
pub open spec fn char_rows(v: Seq<Vec<char>>) -> Seq<Seq<char>> {
    Seq::new(v.len(), |i: int| v[i]@)
}

/// Splits characters at every `sep`.
fn split(t: &[char], sep: char) -> (r: Vec<Vec<char>>)
    ensures
        char_rows(r@) == parts_of(t@, sep),
        r@.len() >= 1,
{
    let mut r: Vec<Vec<char>> = Vec::new();
    let mut cur: Vec<char> = Vec::new();
    let mut i: usize = 0;
    proof {
        assert(char_rows(r@) + parts_from(t@, sep, 0, cur@) =~= parts_of(t@, sep));
    }
    while i < t.len()
        invariant
            i <= t@.len(),
            char_rows(r@) + parts_from(t@, sep, i as int, cur@) == parts_of(t@, sep),
        decreases t@.len() - i,
    {
        let c: char = t[i];
        if c == sep {
            let ghost before = char_rows(r@);
            let ghost part = cur@;
            r.push(cur);
            cur = Vec::new();
            proof {
                let rest = parts_from(t@, sep, i + 1, cur@);
                assert(char_rows(r@) =~= before.push(part));
                assert(before + (seq![part] + rest) =~= char_rows(r@) + rest);
            }
        } else {
            cur.push(c);
        }
        i = i + 1;
    }
    let ghost before = char_rows(r@);
    let ghost part = cur@;
    r.push(cur);
    proof {
        assert(char_rows(r@) =~= before + seq![part]);
    }
    r
}

/// Splits characters into words.
fn split_words(t: &[char]) -> (r: Vec<Vec<char>>)
    ensures
        char_rows(r@) == words_of(t@),
{
    let mut r: Vec<Vec<char>> = Vec::new();
    let mut cur: Vec<char> = Vec::new();
    let mut i: usize = 0;
    proof {
        assert(char_rows(r@) + words_from(t@, 0, cur@) =~= words_of(t@));
    }
    while i < t.len()
        invariant
            i <= t@.len(),
            char_rows(r@) + words_from(t@, i as int, cur@) == words_of(t@),
        decreases t@.len() - i,
    {
        let c: char = t[i];
        if space(c) {
            if cur.len() > 0 {
                let ghost before = char_rows(r@);
                let ghost part = cur@;
                r.push(cur);
                cur = Vec::new();
                proof {
                    let rest = words_from(t@, i + 1, cur@);
                    assert(char_rows(r@) =~= before.push(part));
                    assert(before + (seq![part] + rest) =~= char_rows(r@) + rest);
                }
            } else {
                proof {
                    let rest = words_from(t@, i + 1, seq![]);
                    let none: Seq<Seq<char>> = seq![];
                    assert(cur@ =~= seq![]);
                    assert(none + rest =~= rest);
                }
            }
        } else {
            cur.push(c);
        }
        i = i + 1;
    }
    if cur.len() > 0 {
        let ghost before = char_rows(r@);
        let ghost part = cur@;
        r.push(cur);
        proof {
            assert(char_rows(r@) =~= before + seq![part]);
        }
    } else {
        proof {
            let none: Seq<Seq<char>> = seq![];
            assert(char_rows(r@) + none =~= char_rows(r@));
        }
    }
    r
}

/// Removes the spaces at both ends.
fn trim(t: &[char]) -> (r: Vec<char>)
    ensures
        r@ == trimmed(t@),
{
    let n: usize = t.len();
    let mut lo: usize = 0;
    while lo < n && space(t[lo])
        invariant
            n == t@.len(),
            lo <= n,
            space_end(t@, lo as int) == space_end(t@, 0),
        decreases n - lo,
    {
        lo = lo + 1;
    }
    let mut r: Vec<char> = Vec::new();
    if lo == n {
        proof {
            assert(space_end(t@, n as int) == n);
            assert(r@ =~= trimmed(t@));
        }
        return r;
    }
    let mut hi: usize = n;
    while hi > lo && space(t[hi - 1])
        invariant
            n == t@.len(),
            lo < n,
            lo <= hi <= n,
            space_start(t@, lo as int, hi as int) == space_start(t@, lo as int, n as int),
        decreases hi - lo,
    {
        hi = hi - 1;
    }
    let mut i: usize = lo;
    while i < hi
        invariant
            lo <= i <= hi <= t@.len(),
            r@ == t@.subrange(lo as int, i as int),
        decreases hi - i,
    {
        r.push(t[i]);
        proof {
            assert(t@.subrange(lo as int, i + 1) =~= t@.subrange(lo as int, i as int).push(t@[i as int]));
        }
        i = i + 1;
    }
    r
}

/// More digits make no smaller number.
proof fn lemma_digits_grow(t: Seq<char>, k: nat, n: nat)
    requires
        k <= n <= t.len(),
        all_digits(t),
    ensures
        0 <= digits_value(t, k) <= digits_value(t, n),
    decreases n,
{
    if k < n {
        lemma_digits_grow(t, k, (n - 1) as nat);
        assert(is_digit(t[n - 1]));
    } else if n > 0 {
        lemma_digits_grow(t, (k - 1) as nat, (k - 1) as nat);
        assert(is_digit(t[n - 1]));
    }
}

/// The number that the characters from `from` on write, if it is at most `limit`.
fn natural(t: &[char], from: usize, limit: u64) -> (r: Option<u64>)
    requires
        from <= t@.len(),
    ensures
        match r {
            Some(v) => natural_of(t@.skip(from as int)) == Some(v as int) && v <= limit,
            None => match natural_of(t@.skip(from as int)) {
                Some(v) => v > limit,
                None => true,
            },
        },
{
    let ghost s = t@.skip(from as int);
    let n: usize = t.len();
    if from == n {
        return None;
    }
    let mut v: u128 = 0;
    let mut i: usize = from;
    while i < n
        invariant
            from <= i <= n,
            n == t@.len(),
            s == t@.skip(from as int),
            forall|k: int| 0 <= k < i - from ==> is_digit(#[trigger] s[k]),
            v == digits_value(s, (i - from) as nat),
            v <= limit,
        decreases n - i,
    {
        let c: char = t[i];
        proof {
            assert(s[i - from] == c);
        }
        if !('0' <= c && c <= '9') {
            proof {
                assert(!is_digit(s[i - from]));
            }
            return None;
        }
        v = 10 * v + (c as u32 - '0' as u32) as u128;
        i = i + 1;
        if v > limit as u128 {
            proof {
                if all_digits(s) {
                    lemma_digits_grow(s, (i - from) as nat, s.len());
                }
            }
            return None;
        }
    }
    Some(v as u64)
}

/// The size that characters write.
fn size(t: &[char]) -> (r: Option<usize>)
    ensures
        r == size_of_text(t@),
{
    let from: usize = if t.len() > 0 && t[0] == '+' {
        1
    } else {
        0
    };
    proof {
        assert(t@.skip(0) =~= t@);
        if t@.len() > 0 {
            assert(t@.skip(1) =~= t@.drop_first());
        }
    }
    match natural(t, from, usize::MAX as u64) {
        Some(v) => Some(v as usize),
        None => None,
    }
}

/// The integer that characters write.
fn integer(t: &[char]) -> (r: Option<i64>)
    ensures
        r == integer_of(t@),
{
    let signed: bool = t.len() > 0 && (t[0] == '+' || t[0] == '-');
    let minus: bool = signed && t[0] == '-';
    let from: usize = if signed {
        1
    } else {
        0
    };
    let limit: u64 = if minus {
        0x8000_0000_0000_0000
    } else {
        0x7FFF_FFFF_FFFF_FFFF
    };
    proof {
        assert(t@.skip(0) =~= t@);
        if t@.len() > 0 {
            assert(t@.skip(1) =~= t@.drop_first());
        }
    }
    match natural(t, from, limit) {
        Some(v) => if minus {
            Some((-(v as i128)) as i64)
        } else {
            Some(v as i64)
        },
        None => None,
    }
}

/// The columns of a line, none if it is to be skipped.
fn columns(line: &[char]) -> (r: Vec<Vec<char>>)
    ensures
        char_rows(r@) == columns_of(line@),
{
    let t: Vec<char> = trim(line);
    let cols: Vec<Vec<char>> = split(&t, ',');
    let ghost raw = parts_of(t@, ',');
    let mut r: Vec<Vec<char>> = Vec::new();
    if t.len() == 0 || cols.len() < 2 {
        proof {
            assert(raw.len() == char_rows(cols@).len());
            assert(char_rows(r@) =~= columns_of(line@));
        }
        return r;
    }
    let mut i: usize = 0;
    while i < cols.len()
        invariant
            i <= cols@.len(),
            char_rows(cols@) == raw,
            r@.len() == i,
            forall|k: int| 0 <= k < i ==> (#[trigger] r@[k])@ == trimmed(raw[k]),
        decreases cols@.len() - i,
    {
        proof {
            assert(char_rows(cols@)[i as int] == cols@[i as int]@);
        }
        r.push(trim(&cols[i]));
        i = i + 1;
    }
    proof {
        assert(raw.len() == char_rows(cols@).len());
        assert(char_rows(r@) =~= columns_of(line@));
    }
    r
}

/// Reads line `i` of a table of features that are 0 or not.
fn read_binary_line(line: &[char], i: usize) -> (r: Line)
    ensures
        r@ == binary_line(line@, i as int),
{
    let cols: Vec<Vec<char>> = columns(line);
    let ghost cs = columns_of(line@);
    proof {
        assert(char_rows(cols@).len() == cols@.len());
        assert forall|k: int| 0 <= k < cs.len() implies #[trigger] cs[k] == cols@[k]@ by {
            assert(char_rows(cols@)[k] == cols@[k]@);
        }
    }
    if cols.len() == 0 {
        return Line::Skip;
    }
    if i == 0 {
        let first: Option<i64> = integer(&cols[0]);
        if first.is_none() {
            return Line::Skip;
        }
    }
    let n: usize = cols.len() - 1;
    let mut x: Vec<u8> = Vec::with_capacity(n);
    let mut k: usize = 0;
    while k < n
        invariant
            k <= n,
            n + 1 == cols@.len(),
            cs.len() == cols@.len(),
            cs == columns_of(line@),
            !(i == 0 && integer_of(cs[0]) is None),
            forall|j: int| 0 <= j < cs.len() ==> #[trigger] cs[j] == cols@[j]@,
            x@.len() == k,
            forall|j: int| 0 <= j < k ==> integer_of(#[trigger] cs[j]) is Some,
            forall|j: int|
                0 <= j < k ==> #[trigger] x@[j] == byte_of(integer_of(cs[j])->0 != 0),
        decreases n - k,
    {
        proof {
            assert(cs[k as int] == cols@[k as int]@);
        }
        match integer(&cols[k]) {
            Some(v) => {
                x.push(
                    if v != 0 {
                        1
                    } else {
                        0
                    },
                );
            },
            None => {
                proof {
                    assert(integer_of(cs[k as int]) is None);
                }
                return Line::Bad { kind: DataErrorKind::NotInteger };
            },
        }
        k = k + 1;
    }
    match size(&cols[n]) {
        Some(y) => {
            proof {
                assert(x@ =~= Seq::new(n as nat, |j: int| byte_of(integer_of(cs[j])->0 != 0)));
            }
            Line::Row { x, y }
        },
        None => Line::Bad { kind: DataErrorKind::BadLabel },
    }
}

/// Reads a line of a label and the indices of set features.
fn read_sparse_line(line: &[char], n_features: usize) -> (r: Line)
    ensures
        r@ == sparse_line(line@, n_features as nat),
{
    let words: Vec<Vec<char>> = split_words(line);
    let ghost ws = words_of(line@);
    proof {
        assert(char_rows(words@).len() == words@.len());
        assert forall|k: int| 0 <= k < ws.len() implies #[trigger] ws[k] == words@[k]@ by {
            assert(char_rows(words@)[k] == words@[k]@);
        }
    }
    if words.len() == 0 {
        return Line::Skip;
    }
    let y: usize = match size(&words[0]) {
        Some(y) => y,
        None => return Line::Bad { kind: DataErrorKind::BadLabel },
    };
    let mut x: Vec<u8> = vec![0u8; n_features];
    let mut k: usize = 1;
    while k < words.len()
        invariant
            1 <= k <= words@.len(),
            ws.len() == words@.len(),
            ws == words_of(line@),
            size_of_text(ws[0]) == Some(y),
            forall|j: int| 0 <= j < ws.len() ==> #[trigger] ws[j] == words@[j]@,
            forall|j: int| 1 <= j < k ==> size_of_text(#[trigger] ws[j]) is Some,
            x@.len() == n_features,
            forall|f: int|
                0 <= f < n_features ==> #[trigger] x@[f] == byte_of(listed(ws.take(k as int), f)),
        decreases words@.len() - k,
    {
        match size(&words[k]) {
            Some(f) => {
                let ghost before = x@;
                if f < n_features {
                    x.set(f, 1);
                }
                proof {
                    let seen = ws.take(k as int);
                    let now = ws.take(k + 1);
                    assert forall|g: int| 0 <= g < n_features implies #[trigger] x@[g] == byte_of(
                        listed(now, g),
                    ) by {
                        assert(before[g] == byte_of(listed(seen, g)));
                        if listed(seen, g) {
                            let j = choose|j: int|
                                1 <= j < seen.len() && size_of_text(#[trigger] seen[j]) == Some(g as usize);
                            assert(size_of_text(now[j]) == Some(g as usize));
                        }
                        if g == f {
                            assert(size_of_text(now[k as int]) == Some(g as usize));
                        }
                        if listed(now, g) && g != f {
                            let j = choose|j: int|
                                1 <= j < now.len() && size_of_text(#[trigger] now[j]) == Some(g as usize);
                            assert(size_of_text(seen[j]) == Some(g as usize));
                        }
                    }
                }
            },
            None => {
                proof {
                    assert(size_of_text(ws[k as int]) is None);
                }
                return Line::Bad { kind: DataErrorKind::BadIndex };
            },
        }
        k = k + 1;
    }
    proof {
        assert(ws.take(ws.len() as int) =~= ws);
        assert(x@ =~= Seq::new(n_features as nat, |f: int| byte_of(listed(ws, f))));
    }
    Line::Row { x, y }
}

/// Where a line cannot be read, later lines change nothing.
proof fn lemma_dataset_fails(lines: Seq<LineModel>, k: nat, n: nat)
    requires
        k <= n,
        dataset_of(lines, k) is Err,
    ensures
        dataset_of(lines, n) == dataset_of(lines, k),
    decreases n,
{
    if k < n {
        lemma_dataset_fails(lines, k, (n - 1) as nat);
    }
}

/// Reads a table of features that are 0 or not, with the label in the last column. Empty lines
/// and a heading are skipped.
pub fn read_binary_csv(text: &str) -> (r: Result<(Vec<Vec<u8>>, Vec<usize>), DataError>)
    ensures
        dataset_view(r) == dataset_of(binary_lines(text@), binary_lines(text@).len()),
{
    let chars: Vec<char> = chars_of(text);
    let lines: Vec<Vec<char>> = split(&chars, '\n');
    let ghost models = binary_lines(text@);
    proof {
        assert(char_rows(lines@).len() == lines@.len());
    }
    let mut xs: Vec<Vec<u8>> = Vec::new();
    let mut ys: Vec<usize> = Vec::new();
    let mut i: usize = 0;
    proof {
        assert(row_bytes(xs@) =~= seq![]);
        assert(ys@ =~= seq![]);
    }
    while i < lines.len()
        invariant
            i <= lines@.len(),
            lines@.len() == models.len(),
            char_rows(lines@) == parts_of(text@, '\n'),
            models == binary_lines(text@),
            dataset_of(models, i as nat) == Ok::<(Seq<Seq<u8>>, Seq<usize>), DataError>(
                (row_bytes(xs@), ys@),
            ),
        decreases lines@.len() - i,
    {
        let line: Line = read_binary_line(&lines[i], i);
        proof {
            assert(char_rows(lines@)[i as int] == lines@[i as int]@);
            assert(line@ == models[i as int]);
        }
        i = i + 1;
        match line {
            Line::Skip => {},
            Line::Row { x, y } => {
                let ghost before = row_bytes(xs@);
                let ghost added = x@;
                xs.push(x);
                ys.push(y);
                proof {
                    assert(row_bytes(xs@) =~= before.push(added));
                }
            },
            Line::Bad { kind } => {
                proof {
                    lemma_dataset_fails(models, i as nat, models.len());
                }
                return Err(DataError { kind, line: i });
            },
        }
    }
    Ok((xs, ys))
}

/// Reads lines of a label and the indices of set features.
pub fn read_sparse_binary(text: &str, n_features: usize) -> (r: Result<
    (Vec<Vec<u8>>, Vec<usize>),
    DataError,
>)
    ensures
        dataset_view(r) == dataset_of(
            sparse_lines(text@, n_features as nat),
            sparse_lines(text@, n_features as nat).len(),
        ),
{
    let chars: Vec<char> = chars_of(text);
    let lines: Vec<Vec<char>> = split(&chars, '\n');
    let ghost models = sparse_lines(text@, n_features as nat);
    proof {
        assert(char_rows(lines@).len() == lines@.len());
    }
    let mut xs: Vec<Vec<u8>> = Vec::new();
    let mut ys: Vec<usize> = Vec::new();
    let mut i: usize = 0;
    proof {
        assert(row_bytes(xs@) =~= seq![]);
        assert(ys@ =~= seq![]);
    }
    while i < lines.len()
        invariant
            i <= lines@.len(),
            lines@.len() == models.len(),
            char_rows(lines@) == parts_of(text@, '\n'),
            models == sparse_lines(text@, n_features as nat),
            dataset_of(models, i as nat) == Ok::<(Seq<Seq<u8>>, Seq<usize>), DataError>(
                (row_bytes(xs@), ys@),
            ),
        decreases lines@.len() - i,
    {
        let line: Line = read_sparse_line(&lines[i], n_features);
        proof {
            assert(char_rows(lines@)[i as int] == lines@[i as int]@);
            assert(line@ == models[i as int]);
        }
        i = i + 1;
        match line {
            Line::Skip => {},
            Line::Row { x, y } => {
                let ghost before = row_bytes(xs@);
                let ghost added = x@;
                xs.push(x);
                ys.push(y);
                proof {
                    assert(row_bytes(xs@) =~= before.push(added));
                }
            },
            Line::Bad { kind } => {
                proof {
                    lemma_dataset_fails(models, i as nat, models.len());
                }
                return Err(DataError { kind, line: i });
            },
        }
    }
    Ok((xs, ys))
}

/// The class that a number names as a label: the nearest integer, halves away from zero. Numbers
/// below the classes, and what is not a number, name the first class, and numbers beyond them the
/// last.
pub open spec fn class_of(v: Number) -> int {
    if v.is_nan() || v.0 >= SIGN_BIT {
        0
    } else if v.0 == INFINITY_BITS {
        usize::MAX as int
    } else {
        let d = f64_value(v.0);
        let r = if d.exp >= 0 {
            d.mant * pow2(d.exp as nat)
        } else {
            (2 * d.mant + pow2((-d.exp) as nat)) / (2 * pow2((-d.exp) as nat) as int)
        };
        if r <= usize::MAX {
            r
        } else {
            usize::MAX as int
        }
    }
}

/// The class that a number names as a label.
fn label(v: &Number) -> (r: usize)
    ensures
        r == class_of(*v),
{
    if v.0 == INFINITY_BITS {
        return usize::MAX;
    }
    let d: Dyadic = match Dyadic::from_bits(v.0) {
        Some(d) => d,
        None => return 0,
    };
    if v.0 == SIGN_BIT {
        return 0;
    }
    if d.exp >= 12 {
        proof {
            lemma_pow2_consts();
            lemma2_to64();
            if d.exp > 12 {
                lemma_pow2_strictly_increases(12, d.exp as nat);
            }
            let p = pow2(d.exp as nat) as int;
            assert(d.mant * p >= 0x10_0000_0000_0000 * 4096) by (nonlinear_arith)
                requires
                    d.mant >= 0x10_0000_0000_0000,
                    p >= 4096,
            ;
        }
        return usize::MAX;
    }
    let n: u128 = if d.exp >= 0 {
        let place: u128 = power_of_two(d.exp as u32);
        proof {
            lemma2_to64();
            if d.exp < 12 {
                lemma_pow2_strictly_increases(d.exp as nat, 12);
            }
            assert(d.mant * place <= 0x20_0000_0000_0000 * 4096) by (nonlinear_arith)
                requires
                    d.mant <= 0x20_0000_0000_0000,
                    0 <= place <= 4096,
            ;
        }
        d.mant as u128 * place
    } else if d.exp < -53 {
        proof {
            lemma_pow2_consts();
            let s = (-d.exp) as nat;
            lemma_pow2_step(53);
            if s > 54 {
                lemma_pow2_strictly_increases(54, s);
            }
            let p = pow2(s) as int;
            assert((2 * d.mant + p) / (2 * p) == 0) by (nonlinear_arith)
                requires
                    0 <= d.mant < 0x20_0000_0000_0000,
                    p >= 0x40_0000_0000_0000,
            ;
        }
        0
    } else {
        let place: u128 = power_of_two((-d.exp) as u32);
        proof {
            lemma_pow2_consts();
            lemma_pow2_pos((-d.exp) as nat);
            if -d.exp < 53 {
                lemma_pow2_strictly_increases((-d.exp) as nat, 53);
            }
        }
        (2 * d.mant as u128 + place) / (2 * place)
    };
    if n <= usize::MAX as u128 {
        n as usize
    } else {
        usize::MAX
    }
}

/// A line of numbers: its place and its columns as texts.
pub struct NumericLine {
    pub line: usize,
    pub columns: Vec<Vec<char>>,
}

/// The places of the first `n` lines that have columns.
pub open spec fn column_lines(lines: Seq<Seq<char>>, n: nat) -> Seq<(usize, Seq<Seq<char>>)>
    decreases n,
{
    if n == 0 {
        seq![]
    } else {
        let before = column_lines(lines, (n - 1) as nat);
        if columns_of(lines[n - 1]).len() == 0 {
            before
        } else {
            before.push(((n - 1) as usize, columns_of(lines[n - 1])))
        }
    }
}

/// Lines of numbers as values.
pub open spec fn numeric_lines(v: Seq<NumericLine>) -> Seq<(usize, Seq<Seq<char>>)> {
    Seq::new(v.len(), |i: int| (v[i].line, char_rows(v[i].columns@)))
}

/// The columns of all lines of a table of numbers that are not skipped.
pub fn split_numeric_csv(text: &str) -> (r: Vec<NumericLine>)
    ensures
        numeric_lines(r@) == column_lines(parts_of(text@, '\n'), parts_of(text@, '\n').len()),
{
    let chars: Vec<char> = chars_of(text);
    let lines: Vec<Vec<char>> = split(&chars, '\n');
    let ghost raw = parts_of(text@, '\n');
    proof {
        assert(char_rows(lines@).len() == lines@.len());
    }
    let mut r: Vec<NumericLine> = Vec::new();
    let mut i: usize = 0;
    proof {
        assert(numeric_lines(r@) =~= seq![]);
    }
    while i < lines.len()
        invariant
            i <= lines@.len(),
            lines@.len() == raw.len(),
            char_rows(lines@) == raw,
            numeric_lines(r@) == column_lines(raw, i as nat),
        decreases lines@.len() - i,
    {
        proof {
            assert(char_rows(lines@)[i as int] == lines@[i as int]@);
        }
        let cols: Vec<Vec<char>> = columns(&lines[i]);
        proof {
            assert(char_rows(cols@).len() == cols@.len());
        }
        if cols.len() > 0 {
            let ghost before = numeric_lines(r@);
            let ghost added = char_rows(cols@);
            r.push(NumericLine { line: i, columns: cols });
            proof {
                assert(numeric_lines(r@) =~= before.push((i, added)));
            }
        }
        i = i + 1;
    }
    r
}

/// A line of a table of numbers: its place, and its numbers if all columns are numbers.
pub struct ParsedLine {
    pub line: usize,
    pub values: Option<Vec<Number>>,
}

/// What the first `n` lines of a table of numbers hold, or the first that is not numeric. A first
/// line that is not numeric is a heading.
pub open spec fn numeric_dataset(lines: Seq<ParsedLine>, n: nat) -> Result<
    (Seq<Seq<Number>>, Seq<usize>),
    DataError,
>
    decreases n,
{
    if n == 0 {
        Ok((seq![], seq![]))
    } else {
        match numeric_dataset(lines, (n - 1) as nat) {
            Ok((xs, ys)) => match lines[n - 1].values {
                Some(v) => Ok(
                    (
                        xs.push(v@.take(v@.len() - 1)),
                        ys.push(class_of(v@[v@.len() - 1]) as usize),
                    ),
                ),
                None => if lines[n - 1].line == 0 {
                    Ok((xs, ys))
                } else {
                    Err(
                        DataError {
                            kind: DataErrorKind::NotNumeric,
                            line: (lines[n - 1].line + 1) as usize,
                        },
                    )
                },
            },
            Err(e) => Err(e),
        }
    }
}

/// Rows of numbers as values.
pub open spec fn number_rows(xs: Seq<Vec<Number>>) -> Seq<Seq<Number>> {
    Seq::new(xs.len(), |i: int| xs[i]@)
}

/// Where a line is not numeric, later lines change nothing.
proof fn lemma_numeric_fails(lines: Seq<ParsedLine>, k: nat, n: nat)
    requires
        k <= n,
        numeric_dataset(lines, k) is Err,
    ensures
        numeric_dataset(lines, n) == numeric_dataset(lines, k),
    decreases n,
{
    if k < n {
        lemma_numeric_fails(lines, k, (n - 1) as nat);
    }
}

/// Puts a table of numbers together: the last number of a line is its label.
pub fn assemble_numeric_csv(lines: &[ParsedLine]) -> (r: Result<
    (Vec<Vec<Number>>, Vec<usize>),
    DataError,
>)
    requires
        forall|i: int|
            0 <= i < lines@.len() ==> {
                &&& (#[trigger] lines@[i]).line < usize::MAX
                &&& lines@[i].values matches Some(v) ==> v@.len() >= 1
            },
    ensures
        match r {
            Ok((xs, ys)) => numeric_dataset(lines@, lines@.len()) == Ok::<
                (Seq<Seq<Number>>, Seq<usize>),
                DataError,
            >((number_rows(xs@), ys@)),
            Err(e) => numeric_dataset(lines@, lines@.len()) == Err::<
                (Seq<Seq<Number>>, Seq<usize>),
                DataError,
            >(e),
        },
{
    let mut xs: Vec<Vec<Number>> = Vec::new();
    let mut ys: Vec<usize> = Vec::new();
    let mut i: usize = 0;
    proof {
        assert(number_rows(xs@) =~= seq![]);
        assert(ys@ =~= seq![]);
    }
    while i < lines.len()
        invariant
            i <= lines@.len(),
            forall|i: int|
                0 <= i < lines@.len() ==> {
                    &&& (#[trigger] lines@[i]).line < usize::MAX
                    &&& lines@[i].values matches Some(v) ==> v@.len() >= 1
                },
            numeric_dataset(lines@, i as nat) == Ok::<(Seq<Seq<Number>>, Seq<usize>), DataError>(
                (number_rows(xs@), ys@),
            ),
        decreases lines@.len() - i,
    {
        let line: &ParsedLine = &lines[i];
        i = i + 1;
        match &line.values {
            Some(v) => {
                let n: usize = v.len() - 1;
                let x: Vec<Number> = slice_to_vec(slice_subrange(v.as_slice(), 0, n));
                let y: usize = label(&v[n]);
                let ghost before = number_rows(xs@);
                let ghost added = x@;
                xs.push(x);
                ys.push(y);
                proof {
                    assert(added =~= v@.take(n as int));
                    assert(number_rows(xs@) =~= before.push(added));
                }
            },
            None => {
                if line.line != 0 {
                    proof {
                        lemma_numeric_fails(lines@, i as nat, lines@.len());
                    }
                    return Err(DataError { kind: DataErrorKind::NotNumeric, line: line.line + 1 });
                }
            },
        }
    }
    Ok((xs, ys))
}

} // verus!
