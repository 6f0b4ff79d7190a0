//! Reading a dataset undoes writing it down.
use crate::bits::byte_of;
use crate::booleanizer::Number;
use crate::data::{
    binary_line, binary_lines, class_of, column_lines, columns_of, dataset_of, digits_value,
    integer_of, is_digit, is_space, listed, natural_of, numeric_dataset, parts_from, parts_of,
    size_of_text, space_end, space_start, sparse_line, sparse_lines, trimmed, word_if, words_from,
    words_of, DataError, DataErrorKind, LineModel, ParsedLine,
};
use crate::dyadic::{f64_value, INFINITY_BITS, SIGN_BIT};
use vstd::arithmetic::div_mod::lemma_fundamental_div_mod;
use vstd::arithmetic::power2::{lemma_pow2_pos, pow2};
use vstd::prelude::*;

verus! {

/// The character of a decimal digit.
pub open spec fn digit_char(d: int) -> char {
    if d == 0 {
        '0'
    } else if d == 1 {
        '1'
    } else if d == 2 {
        '2'
    } else if d == 3 {
        '3'
    } else if d == 4 {
        '4'
    } else if d == 5 {
        '5'
    } else if d == 6 {
        '6'
    } else if d == 7 {
        '7'
    } else if d == 8 {
        '8'
    } else {
        '9'
    }
}

/// The decimal text of a number: its tens, then its units.
pub open spec fn decimal(v: nat) -> Seq<char>
    decreases v,
{
    if v < 10 {
        seq![digit_char(v as int)]
    } else {
        decimal(v / 10).push(digit_char((v % 10) as int))
    }
}

/// Texts one after the other, with a separator between them.
pub open spec fn joined(parts: Seq<Seq<char>>, sep: char) -> Seq<char>
    decreases parts.len(),
{
    if parts.len() == 0 {
        Seq::empty()
    } else if parts.len() == 1 {
        parts[0]
    } else {
        joined(parts.drop_last(), sep).push(sep) + parts.last()
    }
}

proof fn lemma_value_prefix(a: Seq<char>, b: Seq<char>, n: nat)
    requires
        n <= a.len(),
        n <= b.len(),
        forall|i: int| 0 <= i < n ==> #[trigger] a[i] == b[i],
    ensures
        digits_value(a, n) == digits_value(b, n),
    decreases n,
{
    if n > 0 {
        lemma_value_prefix(a, b, (n - 1) as nat);
        assert(a[n - 1] == b[n - 1]);
    }
}

/// Reading the decimal text of a number gives that number. The text is made of digits, and is
/// not empty.
pub proof fn lemma_decimal_is_read(v: nat)
    ensures
        natural_of(decimal(v)) == Some(v as int),
        decimal(v).len() > 0,
        forall|i: int| 0 <= i < decimal(v).len() ==> '0' <= #[trigger] decimal(v)[i] <= '9',
    decreases v,
{
    let t = decimal(v);
    if v < 10 {
        assert(t.len() == 1);
        reveal_with_fuel(digits_value, 2);
        assert(is_digit(t[0]));
        assert(digits_value(t, 1) == v);
    } else {
        let tens = decimal(v / 10);
        lemma_decimal_is_read(v / 10);
        let unit = digit_char((v % 10) as int);
        assert(t == tens.push(unit));
        lemma_value_prefix(t, tens, tens.len());
        assert(is_digit(unit));
        assert forall|i: int| 0 <= i < t.len() implies is_digit(#[trigger] t[i]) by {
            if i < tens.len() {
                assert(t[i] == tens[i]);
                assert(is_digit(tens[i]));
            }
        }
        assert(t[t.len() - 1] == unit);
        assert(unit as int - '0' as int == v % 10);
    }
}

/// Leading zeros change nothing, and what holds anything but digits is no number.
pub proof fn lemma_numbers_are_digits(t: Seq<char>)
    ensures
        natural_of(t) is Some <==> t.len() > 0 && forall|i: int|
            0 <= i < t.len() ==> '0' <= #[trigger] t[i] <= '9',
        t.len() > 0 ==> natural_of(seq!['0'] + t) == natural_of(t),
{
    let z = seq!['0'] + t;
    if t.len() > 0 {
        if forall|i: int| 0 <= i < t.len() ==> is_digit(#[trigger] t[i]) {
            assert forall|i: int| 0 <= i < z.len() implies is_digit(#[trigger] z[i]) by {
                if i > 0 {
                    assert(z[i] == t[i - 1]);
                    assert(is_digit(t[i - 1]));
                }
            }
            lemma_zero_first(t, t.len());
        } else {
            let i = choose|i: int| 0 <= i < t.len() && !is_digit(#[trigger] t[i]);
            assert(z[i + 1] == t[i]);
            assert(!is_digit(z[i + 1]));
        }
    }
}

proof fn lemma_zero_first(t: Seq<char>, n: nat)
    requires
        n <= t.len(),
    ensures
        digits_value(seq!['0'] + t, n + 1) == digits_value(t, n),
    decreases n,
{
    let z = seq!['0'] + t;
    if n == 0 {
        reveal_with_fuel(digits_value, 2);
        assert(z[0] == '0');
    } else {
        lemma_zero_first(t, (n - 1) as nat);
        assert(z[n as int] == t[n - 1]);
    }
}

/// Classes and indices are read from their decimal text, with or without a plus sign, as long as
/// they fit; nothing may stand before the digits but that sign.
pub proof fn lemma_sizes_are_read(v: nat, c: char)
    ensures
        v <= usize::MAX ==> size_of_text(decimal(v)) == Some(v as usize),
        v <= usize::MAX ==> size_of_text(seq!['+'] + decimal(v)) == Some(v as usize),
        v > usize::MAX ==> size_of_text(decimal(v)) is None,
        v > usize::MAX ==> size_of_text(seq!['+'] + decimal(v)) is None,
        c != '+' && !('0' <= c <= '9') ==> size_of_text(seq![c] + decimal(v)) is None,
        size_of_text(Seq::empty()) is None,
        size_of_text(seq!['+']) is None,
{
    lemma_decimal_is_read(v);
    let t = decimal(v);
    assert((seq!['+'] + t).drop_first() =~= t);
    assert(t[0] != '+');
    let s = seq![c] + t;
    if c != '+' && !('0' <= c <= '9') {
        assert(s[0] == c);
        assert(!is_digit(s[0]));
    }
    assert(seq!['+'].drop_first() =~= Seq::<char>::empty());
}

/// Integers are read from their decimal text, with their sign, as long as they fit in 64 bits.
pub proof fn lemma_integers_are_read(v: nat, c: char)
    ensures
        v <= i64::MAX ==> integer_of(decimal(v)) == Some(v as i64),
        v <= i64::MAX ==> integer_of(seq!['+'] + decimal(v)) == Some(v as i64),
        v > i64::MAX ==> integer_of(decimal(v)) is None,
        v > i64::MAX ==> integer_of(seq!['+'] + decimal(v)) is None,
        -v >= i64::MIN ==> integer_of(seq!['-'] + decimal(v)) == Some((-v) as i64),
        -v < i64::MIN ==> integer_of(seq!['-'] + decimal(v)) is None,
        c != '+' && c != '-' && !('0' <= c <= '9') ==> integer_of(seq![c] + decimal(v)) is None,
        integer_of(Seq::empty()) is None,
        integer_of(seq!['+']) is None,
        integer_of(seq!['-']) is None,
{
    lemma_decimal_is_read(v);
    let t = decimal(v);
    assert((seq!['+'] + t).drop_first() =~= t);
    assert((seq!['-'] + t).drop_first() =~= t);
    assert(t[0] != '+' && t[0] != '-');
    assert((seq!['-'] + t)[0] == '-');
    assert((seq!['+'] + t)[0] == '+');
    let s = seq![c] + t;
    if c != '+' && c != '-' && !('0' <= c <= '9') {
        assert(s[0] == c);
        assert(!is_digit(s[0]));
    }
    assert(seq!['+'].drop_first() =~= Seq::<char>::empty());
    assert(seq!['-'].drop_first() =~= Seq::<char>::empty());
}

proof fn lemma_parts_shift(p: Seq<char>, b: Seq<char>, sep: char, j: int, cur: Seq<char>)
    requires
        0 <= j <= b.len(),
    ensures
        parts_from(p + b, sep, p.len() + j, cur) == parts_from(b, sep, j, cur),
    decreases b.len() - j,
{
    let t = p + b;
    if j < b.len() {
        assert(t[p.len() + j] == b[j]);
        lemma_parts_shift(p, b, sep, j + 1, seq![]);
        lemma_parts_shift(p, b, sep, j + 1, cur.push(b[j]));
    }
}

proof fn lemma_parts_split(a: Seq<char>, b: Seq<char>, sep: char, i: int, cur: Seq<char>)
    requires
        0 <= i <= a.len(),
    ensures
        parts_from(a.push(sep) + b, sep, i, cur) == parts_from(a, sep, i, cur) + parts_of(b, sep),
    decreases a.len() - i,
{
    let t = a.push(sep) + b;
    if i == a.len() {
        assert(t[i] == sep);
        lemma_parts_shift(a.push(sep), b, sep, 0, seq![]);
        assert(parts_from(t, sep, i, cur) =~= seq![cur] + parts_of(b, sep));
    } else {
        assert(t[i] == a[i]);
        if a[i] == sep {
            lemma_parts_split(a, b, sep, i + 1, seq![]);
            assert(parts_from(t, sep, i, cur) =~= seq![cur] + (parts_from(a, sep, i + 1, seq![])
                + parts_of(b, sep)));
            assert(parts_from(a, sep, i, cur) + parts_of(b, sep) =~= seq![cur] + (parts_from(
                a,
                sep,
                i + 1,
                seq![],
            ) + parts_of(b, sep)));
        } else {
            lemma_parts_split(a, b, sep, i + 1, cur.push(a[i]));
        }
    }
}

proof fn lemma_parts_whole(t: Seq<char>, sep: char, i: int, cur: Seq<char>)
    requires
        0 <= i <= t.len(),
        !t.contains(sep),
    ensures
        parts_from(t, sep, i, cur) == seq![cur + t.skip(i)],
    decreases t.len() - i,
{
    if i == t.len() {
        assert(cur + t.skip(i) =~= cur);
    } else {
        assert(t.contains(t[i]));
        lemma_parts_whole(t, sep, i + 1, cur.push(t[i]));
        assert(cur.push(t[i]) + t.skip(i + 1) =~= cur + t.skip(i));
    }
}

/// A text falls into the parts before a separator and those after it; a text without the
/// separator is one part.
pub proof fn lemma_parts_meet_at_separators(a: Seq<char>, b: Seq<char>, sep: char)
    ensures
        parts_of(a.push(sep) + b, sep) == parts_of(a, sep) + parts_of(b, sep),
        !a.contains(sep) ==> parts_of(a, sep) == seq![a],
{
    lemma_parts_split(a, b, sep, 0, seq![]);
    if !a.contains(sep) {
        lemma_parts_whole(a, sep, 0, seq![]);
        assert(Seq::<char>::empty() + a.skip(0) =~= a);
    }
}

/// Splitting undoes joining.
pub proof fn lemma_joined_parts(parts: Seq<Seq<char>>, sep: char)
    requires
        parts.len() >= 1,
        forall|i: int| 0 <= i < parts.len() ==> !(#[trigger] parts[i]).contains(sep),
    ensures
        parts_of(joined(parts, sep), sep) == parts,
    decreases parts.len(),
{
    if parts.len() == 1 {
        lemma_parts_meet_at_separators(parts[0], Seq::empty(), sep);
        assert(seq![parts[0]] =~= parts);
    } else {
        let head = parts.drop_last();
        assert forall|i: int| 0 <= i < head.len() implies !(#[trigger] head[i]).contains(sep) by {
            assert(head[i] == parts[i]);
        }
        lemma_joined_parts(head, sep);
        lemma_parts_meet_at_separators(joined(head, sep), parts.last(), sep);
        lemma_parts_meet_at_separators(parts.last(), Seq::empty(), sep);
        assert(head + seq![parts.last()] =~= parts);
    }
}

proof fn lemma_words_shift(p: Seq<char>, b: Seq<char>, j: int, cur: Seq<char>)
    requires
        0 <= j <= b.len(),
    ensures
        words_from(p + b, p.len() + j, cur) == words_from(b, j, cur),
    decreases b.len() - j,
{
    let t = p + b;
    if j < b.len() {
        assert(t[p.len() + j] == b[j]);
        lemma_words_shift(p, b, j + 1, seq![]);
        lemma_words_shift(p, b, j + 1, cur.push(b[j]));
    }
}

proof fn lemma_words_split(a: Seq<char>, b: Seq<char>, c: char, i: int, cur: Seq<char>)
    requires
        0 <= i <= a.len(),
        is_space(c),
    ensures
        words_from(a.push(c) + b, i, cur) == words_from(a, i, cur) + words_of(b),
    decreases a.len() - i,
{
    let t = a.push(c) + b;
    if i == a.len() {
        assert(t[i] == c);
        lemma_words_shift(a.push(c), b, 0, seq![]);
    } else {
        assert(t[i] == a[i]);
        if is_space(a[i]) {
            lemma_words_split(a, b, c, i + 1, seq![]);
            assert(word_if(cur) + (words_from(a, i + 1, seq![]) + words_of(b)) =~= (word_if(cur)
                + words_from(a, i + 1, seq![])) + words_of(b));
        } else {
            lemma_words_split(a, b, c, i + 1, cur.push(a[i]));
        }
    }
}

proof fn lemma_words_whole(t: Seq<char>, i: int, cur: Seq<char>)
    requires
        0 <= i <= t.len(),
        forall|k: int| 0 <= k < t.len() ==> !is_space(#[trigger] t[k]),
    ensures
        words_from(t, i, cur) == word_if(cur + t.skip(i)),
    decreases t.len() - i,
{
    if i == t.len() {
        assert(cur + t.skip(i) =~= cur);
    } else {
        assert(!is_space(t[i]));
        lemma_words_whole(t, i + 1, cur.push(t[i]));
        assert(cur.push(t[i]) + t.skip(i + 1) =~= cur + t.skip(i));
    }
}

/// The words of a text are those before a space and those after it; a text without spaces is one
/// word, and the empty text has none.
pub proof fn lemma_words_meet_at_spaces(a: Seq<char>, b: Seq<char>, c: char)
    ensures
        is_space(c) ==> words_of(a.push(c) + b) == words_of(a) + words_of(b),
        a.len() > 0 && (forall|k: int| 0 <= k < a.len() ==> !is_space(#[trigger] a[k])) ==> words_of(a)
            == seq![a],
        words_of(Seq::empty()) == Seq::<Seq<char>>::empty(),
{
    if is_space(c) {
        lemma_words_split(a, b, c, 0, seq![]);
    }
    if forall|k: int| 0 <= k < a.len() ==> !is_space(#[trigger] a[k]) {
        lemma_words_whole(a, 0, seq![]);
        assert(Seq::<char>::empty() + a.skip(0) =~= a);
    }
}

/// The blanks of ASCII are spaces, and its other characters are not.
pub proof fn lemma_ascii_spaces(c: char)
    requires
        (c as u32) < 0x80,
    ensures
        is_space(c) <==> c == ' ' || c == '\t' || c == '\n' || c == '\r' || c as u32 == 0x0B || c
            as u32 == 0x0C,
{
}

/// Beyond ASCII the spaces are the next-line and no-break characters, the ogham mark, the
/// typographic blanks and the line and paragraph separators.
pub proof fn lemma_other_spaces(c: char)
    requires
        c as u32 >= 0x80,
    ensures
        is_space(c) <==> seq![
            0x85int,
            0xA0,
            0x1680,
            0x2000,
            0x2001,
            0x2002,
            0x2003,
            0x2004,
            0x2005,
            0x2006,
            0x2007,
            0x2008,
            0x2009,
            0x200A,
            0x2028,
            0x2029,
            0x202F,
            0x205F,
            0x3000,
        ].contains(c as int),
{
    let all = seq![
        0x85int,
        0xA0,
        0x1680,
        0x2000,
        0x2001,
        0x2002,
        0x2003,
        0x2004,
        0x2005,
        0x2006,
        0x2007,
        0x2008,
        0x2009,
        0x200A,
        0x2028,
        0x2029,
        0x202F,
        0x205F,
        0x3000,
    ];
    let v = c as int;
    if is_space(c) {
        let k: int = if v == 0x85 {
            0
        } else if v == 0xA0 {
            1
        } else if v == 0x1680 {
            2
        } else if v <= 0x200A {
            v - 0x2000 + 3
        } else if v == 0x2028 {
            14
        } else if v == 0x2029 {
            15
        } else if v == 0x202F {
            16
        } else if v == 0x205F {
            17
        } else {
            18
        };
        assert(all[k] == v);
    }
}

/// The words of texts that are joined by blanks are those texts.
pub proof fn lemma_joined_words(parts: Seq<Seq<char>>)
    requires
        parts.len() >= 1,
        forall|i: int| 0 <= i < parts.len() ==> (#[trigger] parts[i]).len() > 0,
        forall|i: int, k: int|
            0 <= i < parts.len() && 0 <= k < parts[i].len() ==> !is_space(#[trigger] parts[i][k]),
    ensures
        words_of(joined(parts, ' ')) == parts,
    decreases parts.len(),
{
    lemma_ascii_spaces(' ');
    if parts.len() == 1 {
        assert(parts[0].len() > 0);
        lemma_words_meet_at_spaces(parts[0], Seq::empty(), ' ');
        assert(seq![parts[0]] =~= parts);
    } else {
        let head = parts.drop_last();
        let last = parts.last();
        assert forall|i: int| 0 <= i < head.len() implies (#[trigger] head[i]).len() > 0 by {
            assert(head[i] == parts[i]);
        }
        assert forall|i: int, k: int| 0 <= i < head.len() && 0 <= k < head[i].len() implies !is_space(
            #[trigger] head[i][k],
        ) by {
            assert(parts[i][k] == head[i][k]);
        }
        assert(last == parts[parts.len() - 1]);
        assert forall|k: int| 0 <= k < last.len() implies !is_space(#[trigger] last[k]) by {
            assert(parts[parts.len() - 1][k] == last[k]);
        }
        lemma_joined_words(head);
        lemma_words_meet_at_spaces(joined(head, ' '), last, ' ');
        lemma_words_meet_at_spaces(last, Seq::empty(), ' ');
        assert(head + seq![last] =~= parts);
    }
}

proof fn lemma_space_end(t: Seq<char>, n: int, i: int)
    requires
        0 <= i <= n <= t.len(),
        forall|k: int| 0 <= k < n ==> is_space(#[trigger] t[k]),
        n == t.len() || !is_space(t[n]),
    ensures
        space_end(t, i) == n,
    decreases n - i,
{
    if i < n {
        assert(is_space(t[i]));
        lemma_space_end(t, n, i + 1);
    }
}

proof fn lemma_space_start(t: Seq<char>, lo: int, n: int, j: int)
    requires
        0 <= lo < n <= j <= t.len(),
        forall|k: int| n <= k < t.len() ==> is_space(#[trigger] t[k]),
        !is_space(t[n - 1]),
    ensures
        space_start(t, lo, j) == n,
    decreases j - n,
{
    if n < j {
        assert(is_space(t[j - 1]));
        lemma_space_start(t, lo, n, j - 1);
    }
}

/// Trimming takes the spaces before and after a text off, and nothing else.
pub proof fn lemma_trimming_takes_spaces(pre: Seq<char>, core: Seq<char>, post: Seq<char>)
    requires
        forall|k: int| 0 <= k < pre.len() ==> is_space(#[trigger] pre[k]),
        forall|k: int| 0 <= k < post.len() ==> is_space(#[trigger] post[k]),
        core.len() > 0 ==> !is_space(core[0]) && !is_space(core[core.len() - 1]),
    ensures
        trimmed(pre + core + post) == core,
{
    let t = pre + core + post;
    if core.len() == 0 {
        assert forall|k: int| 0 <= k < t.len() implies is_space(#[trigger] t[k]) by {
            if k < pre.len() {
                assert(t[k] == pre[k]);
            } else {
                assert(t[k] == post[k - pre.len()]);
            }
        }
        lemma_space_end(t, t.len() as int, 0);
        assert(core =~= seq![]);
    } else {
        let lo = pre.len() as int;
        let hi = (pre.len() + core.len()) as int;
        assert forall|k: int| 0 <= k < lo implies is_space(#[trigger] t[k]) by {
            assert(t[k] == pre[k]);
        }
        assert forall|k: int| hi <= k < t.len() implies is_space(#[trigger] t[k]) by {
            assert(t[k] == post[k - hi]);
        }
        assert(t[lo] == core[0]);
        assert(t[hi - 1] == core[core.len() - 1]);
        lemma_space_end(t, lo, 0);
        lemma_space_start(t, lo, hi, t.len() as int);
        assert(t.subrange(lo, hi) =~= core);
    }
}

/// The lines of a dataset are kept in order, with those skipped left out. The first line that
/// cannot be read is the one that is named, counted from 1.
pub proof fn lemma_lines_in_order(lines: Seq<LineModel>, n: nat)
    requires
        n <= lines.len(),
        n <= usize::MAX,
    ensures
        match dataset_of(lines, n) {
            Ok((xs, ys)) => {
                let rows = lines.take(n as int).filter(|l: LineModel| l is Row);
                &&& forall|i: int| 0 <= i < n ==> !(#[trigger] lines[i] is Bad)
                &&& xs == rows.map_values(|l: LineModel| l->x)
                &&& ys == rows.map_values(|l: LineModel| l->y)
            },
            Err(e) => {
                &&& 1 <= e.line <= n
                &&& lines[e.line - 1] == LineModel::Bad { kind: e.kind }
                &&& forall|i: int| 0 <= i < e.line - 1 ==> !(#[trigger] lines[i] is Bad)
            },
        },
    decreases n,
{
    reveal(Seq::filter);
    let row = |l: LineModel| l is Row;
    if n > 0 {
        lemma_lines_in_order(lines, (n - 1) as nat);
        let taken = lines.take(n as int);
        let before = lines.take(n - 1).filter(row);
        assert(taken.drop_last() =~= lines.take(n - 1));
        assert(taken.last() == lines[n - 1]);
        assert(taken.filter(row) == if row(lines[n - 1]) {
            before.push(lines[n - 1])
        } else {
            before
        });
        assert(before.push(lines[n - 1]).map_values(|l: LineModel| l->x) =~= before.map_values(
            |l: LineModel| l->x,
        ).push(lines[n - 1]->x));
        assert(before.push(lines[n - 1]).map_values(|l: LineModel| l->y) =~= before.map_values(
            |l: LineModel| l->y,
        ).push(lines[n - 1]->y));
    } else {
        assert(lines.take(0) =~= Seq::empty());
        assert(lines.take(0).filter(row) =~= Seq::empty());
    }
}

/// The cells of a row of a table: the features, then the class.
pub open spec fn cells(x: Seq<u8>, y: usize) -> Seq<Seq<char>> {
    Seq::new(x.len(), |i: int| decimal(x[i] as nat)).push(decimal(y as nat))
}

/// A table as text: a line per row, with commas between the cells.
pub open spec fn table(xs: Seq<Seq<u8>>, ys: Seq<usize>) -> Seq<char> {
    joined(Seq::new(xs.len(), |r: int| joined(cells(xs[r], ys[r]), ',')), '\n')
}

proof fn lemma_joined_made_of(parts: Seq<Seq<char>>, sep: char, c: char)
    requires
        c != sep,
        forall|i: int| 0 <= i < parts.len() ==> !(#[trigger] parts[i]).contains(c),
    ensures
        !joined(parts, sep).contains(c),
    decreases parts.len(),
{
    let t = joined(parts, sep);
    if parts.len() == 1 {
        assert(!parts[0].contains(c));
    } else if parts.len() > 1 {
        let head = parts.drop_last();
        assert forall|i: int| 0 <= i < head.len() implies !(#[trigger] head[i]).contains(c) by {
            assert(head[i] == parts[i]);
        }
        lemma_joined_made_of(head, sep, c);
        let front = joined(head, sep);
        assert(!parts[parts.len() - 1].contains(c));
        if t.contains(c) {
            let k = choose|k: int| 0 <= k < t.len() && t[k] == c;
            if k < front.len() {
                assert(front[k] == c);
            } else if k > front.len() {
                assert(parts.last()[k - front.len() - 1] == c);
            }
        }
    }
}

proof fn lemma_joined_ends(parts: Seq<Seq<char>>, sep: char)
    requires
        parts.len() >= 1,
        forall|i: int| 0 <= i < parts.len() ==> (#[trigger] parts[i]).len() > 0,
    ensures
        joined(parts, sep).len() > 0,
        joined(parts, sep)[0] == parts[0][0],
        joined(parts, sep)[joined(parts, sep).len() - 1] == parts.last()[parts.last().len() - 1],
    decreases parts.len(),
{
    assert(parts[0].len() > 0);
    if parts.len() > 1 {
        let head = parts.drop_last();
        assert forall|i: int| 0 <= i < head.len() implies (#[trigger] head[i]).len() > 0 by {
            assert(head[i] == parts[i]);
        }
        lemma_joined_ends(head, sep);
        assert(parts[parts.len() - 1].len() > 0);
    }
}

proof fn lemma_decimal_plain(v: nat, c: char)
    requires
        !('0' <= c <= '9'),
    ensures
        !decimal(v).contains(c),
        decimal(v).len() > 0,
        trimmed(decimal(v)) == decimal(v),
        forall|k: int| 0 <= k < decimal(v).len() ==> !is_space(#[trigger] decimal(v)[k]),
{
    lemma_decimal_is_read(v);
    let t = decimal(v);
    assert forall|k: int| 0 <= k < t.len() implies !is_space(#[trigger] t[k]) by {
        assert('0' <= t[k] <= '9');
    }
    lemma_trimming_takes_spaces(Seq::empty(), t, Seq::empty());
    assert(Seq::<char>::empty() + t + Seq::<char>::empty() =~= t);
}

proof fn lemma_cell(x: Seq<u8>, y: usize, k: int) -> (v: nat)
    requires
        0 <= k <= x.len(),
    ensures
        cells(x, y)[k] == decimal(v),
        k < x.len() ==> v == x[k],
        k == x.len() ==> v == y,
        !decimal(v).contains(','),
        !decimal(v).contains('\n'),
        decimal(v).len() > 0,
        trimmed(decimal(v)) == decimal(v),
{
    let v = if k < x.len() {
        x[k] as nat
    } else {
        y as nat
    };
    lemma_decimal_plain(v, ',');
    lemma_decimal_plain(v, '\n');
    v
}

proof fn lemma_row_splits(x: Seq<u8>, y: usize)
    requires
        x.len() > 0,
    ensures
        columns_of(joined(cells(x, y), ',')) == cells(x, y),
        !joined(cells(x, y), ',').contains('\n'),
{
    let parts = cells(x, y);
    let line = joined(parts, ',');
    assert forall|k: int| 0 <= k < parts.len() implies !(#[trigger] parts[k]).contains(',')
        && !parts[k].contains('\n') && parts[k].len() > 0 by {
        lemma_cell(x, y, k);
    }
    lemma_joined_made_of(parts, ',', '\n');
    lemma_joined_parts(parts, ',');
    lemma_joined_ends(parts, ',');
    assert(parts[0] == decimal(x[0] as nat));
    assert(parts.last() == decimal(y as nat));
    lemma_decimal_is_read(x[0] as nat);
    lemma_decimal_is_read(y as nat);
    assert('0' <= decimal(x[0] as nat)[0] <= '9');
    assert('0' <= decimal(y as nat)[decimal(y as nat).len() - 1] <= '9');
    lemma_trimming_takes_spaces(Seq::empty(), line, Seq::empty());
    assert(Seq::<char>::empty() + line + Seq::<char>::empty() =~= line);
    let cols = columns_of(line);
    assert(cols.len() == parts.len());
    assert forall|k: int| 0 <= k < parts.len() implies cols[k] == parts[k] by {
        lemma_cell(x, y, k);
    }
    assert(cols =~= parts);
}

proof fn lemma_row_is_read(x: Seq<u8>, y: usize, i: int)
    requires
        x.len() > 0,
    ensures
        binary_line(joined(cells(x, y), ','), i) == (LineModel::Row {
            x: Seq::new(
                x.len(),
                |k: int|
                    if x[k] == 0 {
                        0u8
                    } else {
                        1u8
                    },
            ),
            y,
        }),
        !joined(cells(x, y), ',').contains('\n'),
{
    let line = joined(cells(x, y), ',');
    let n = x.len() as int;
    lemma_row_splits(x, y);
    let cols = columns_of(line);
    assert(cols.len() == n + 1);
    assert forall|k: int| 0 <= k < n implies integer_of(#[trigger] cols[k]) == Some(x[k] as i64) by {
        lemma_integers_are_read(x[k] as nat, ',');
        assert(cols[k] == decimal(x[k] as nat));
    }
    lemma_sizes_are_read(y as nat, ',');
    assert(cols[n] == decimal(y as nat));
    assert(integer_of(cols[0]) == Some(x[0] as i64));
    let read = Seq::new(n as nat, |k: int| byte_of(integer_of(cols[k])->0 != 0));
    let bits = Seq::new(
        x.len(),
        |k: int|
            if x[k] == 0 {
                0u8
            } else {
                1u8
            },
    );
    assert forall|k: int| 0 <= k < n implies read[k] == bits[k] by {
        assert(integer_of(cols[k]) == Some(x[k] as i64));
    }
    assert(read =~= bits);
}

proof fn lemma_rows_collected(lines: Seq<LineModel>, xs: Seq<Seq<u8>>, ys: Seq<usize>, n: nat)
    requires
        n <= lines.len(),
        xs.len() == lines.len(),
        ys.len() == lines.len(),
        forall|r: int|
            0 <= r < lines.len() ==> #[trigger] lines[r] == (LineModel::Row { x: xs[r], y: ys[r] }),
    ensures
        dataset_of(lines, n) == Ok::<(Seq<Seq<u8>>, Seq<usize>), DataError>(
            (xs.take(n as int), ys.take(n as int)),
        ),
    decreases n,
{
    if n == 0 {
        assert(xs.take(0) =~= seq![]);
        assert(ys.take(0) =~= seq![]);
    } else {
        lemma_rows_collected(lines, xs, ys, (n - 1) as nat);
        assert(lines[n - 1] == (LineModel::Row { x: xs[n - 1], y: ys[n - 1] }));
        assert(xs.take(n - 1).push(xs[n - 1]) =~= xs.take(n as int));
        assert(ys.take(n - 1).push(ys[n - 1]) =~= ys.take(n as int));
    }
}

/// Reading a table gives the rows that were written: row `r` has class `ys[r]`, and a feature is
/// 1 where the table does not say 0.
pub proof fn lemma_table_is_read(xs: Seq<Seq<u8>>, ys: Seq<usize>)
    requires
        xs.len() >= 1,
        xs.len() == ys.len(),
        forall|r: int| 0 <= r < xs.len() ==> (#[trigger] xs[r]).len() > 0,
    ensures
        dataset_of(binary_lines(table(xs, ys)), binary_lines(table(xs, ys)).len()) == Ok::<
            (Seq<Seq<u8>>, Seq<usize>),
            DataError,
        >(
            (
                Seq::new(
                    xs.len(),
                    |r: int|
                        Seq::new(
                            xs[r].len(),
                            |k: int|
                                if xs[r][k] == 0 {
                                    0u8
                                } else {
                                    1u8
                                },
                        ),
                ),
                ys,
            ),
        ),
{
    let rows = Seq::new(xs.len(), |r: int| joined(cells(xs[r], ys[r]), ','));
    let bits = Seq::new(
        xs.len(),
        |r: int|
            Seq::new(
                xs[r].len(),
                |k: int|
                    if xs[r][k] == 0 {
                        0u8
                    } else {
                        1u8
                    },
            ),
    );
    let text = table(xs, ys);
    assert forall|r: int| 0 <= r < rows.len() implies !(#[trigger] rows[r]).contains('\n') by {
        assert(xs[r].len() > 0);
        lemma_row_is_read(xs[r], ys[r], r);
    }
    lemma_joined_parts(rows, '\n');
    let lines = binary_lines(text);
    assert forall|r: int| 0 <= r < lines.len() implies #[trigger] lines[r] == (LineModel::Row {
        x: bits[r],
        y: ys[r],
    }) by {
        assert(xs[r].len() > 0);
        lemma_row_is_read(xs[r], ys[r], r);
    }
    lemma_rows_collected(lines, bits, ys, lines.len());
    assert(bits.take(lines.len() as int) =~= bits);
    assert(ys.take(lines.len() as int) =~= ys);
}

/// The words of a line of a sparse list: the class, then the indices of the features that are set.
pub open spec fn entries(set: Seq<usize>, y: usize) -> Seq<Seq<char>> {
    seq![decimal(y as nat)] + Seq::new(set.len(), |k: int| decimal(set[k] as nat))
}

/// A sparse list as text: a line per sample, with blanks between the entries.
pub open spec fn sparse_list(sets: Seq<Seq<usize>>, ys: Seq<usize>) -> Seq<char> {
    joined(Seq::new(sets.len(), |r: int| joined(entries(sets[r], ys[r]), ' ')), '\n')
}

proof fn lemma_entry_is_read(set: Seq<usize>, y: usize, n_features: nat)
    requires
        n_features <= usize::MAX,
    ensures
        sparse_line(joined(entries(set, y), ' '), n_features) == (LineModel::Row {
            x: Seq::new(
                n_features,
                |f: int|
                    if set.contains(f as usize) {
                        1u8
                    } else {
                        0u8
                    },
            ),
            y,
        }),
        !joined(entries(set, y), ' ').contains('\n'),
{
    let parts = entries(set, y);
    let line = joined(parts, ' ');
    assert forall|k: int| 0 <= k < parts.len() implies (#[trigger] parts[k]).len() > 0
        && !parts[k].contains('\n') && size_of_text(parts[k]) == Some(
        if k == 0 {
            y
        } else {
            set[k - 1]
        },
    ) by {
        let v = if k == 0 {
            y
        } else {
            set[k - 1]
        };
        assert(parts[k] == decimal(v as nat));
        lemma_decimal_plain(v as nat, '\n');
        lemma_sizes_are_read(v as nat, ',');
    }
    assert forall|i: int, k: int| 0 <= i < parts.len() && 0 <= k < parts[i].len() implies !is_space(
        #[trigger] parts[i][k],
    ) by {
        let v = if i == 0 {
            y
        } else {
            set[i - 1]
        };
        assert(parts[i] == decimal(v as nat));
        lemma_decimal_plain(v as nat, '\n');
    }
    lemma_joined_made_of(parts, ' ', '\n');
    lemma_joined_words(parts);
    let words = words_of(line);
    assert(size_of_text(words[0]) == Some(y));
    let read = Seq::new(n_features, |f: int| byte_of(listed(words, f)));
    let bits = Seq::new(
        n_features,
        |f: int|
            if set.contains(f as usize) {
                1u8
            } else {
                0u8
            },
    );
    assert forall|f: int| 0 <= f < n_features implies read[f] == bits[f] by {
        if set.contains(f as usize) {
            let k = choose|k: int| 0 <= k < set.len() && set[k] == f as usize;
            assert(size_of_text(words[k + 1]) == Some(f as usize));
            assert(listed(words, f));
        }
        if listed(words, f) {
            let k = choose|k: int|
                1 <= k < words.len() && size_of_text(#[trigger] words[k]) == Some(f as usize);
            assert(set[k - 1] == f as usize);
            assert(set.contains(f as usize));
        }
    }
    assert(read =~= bits);
}

/// Reading a sparse list gives the samples that were written: sample `r` has class `ys[r]`, and
/// exactly the features whose indices are listed are set.
pub proof fn lemma_sparse_list_is_read(sets: Seq<Seq<usize>>, ys: Seq<usize>, n_features: usize)
    requires
        sets.len() >= 1,
        sets.len() == ys.len(),
    ensures
        dataset_of(
            sparse_lines(sparse_list(sets, ys), n_features as nat),
            sparse_lines(sparse_list(sets, ys), n_features as nat).len(),
        ) == Ok::<(Seq<Seq<u8>>, Seq<usize>), DataError>(
            (
                Seq::new(
                    sets.len(),
                    |r: int|
                        Seq::new(
                            n_features as nat,
                            |f: int|
                                if sets[r].contains(f as usize) {
                                    1u8
                                } else {
                                    0u8
                                },
                        ),
                ),
                ys,
            ),
        ),
{
    let rows = Seq::new(sets.len(), |r: int| joined(entries(sets[r], ys[r]), ' '));
    let bits = Seq::new(
        sets.len(),
        |r: int|
            Seq::new(
                n_features as nat,
                |f: int|
                    if sets[r].contains(f as usize) {
                        1u8
                    } else {
                        0u8
                    },
            ),
    );
    assert forall|r: int| 0 <= r < rows.len() implies !(#[trigger] rows[r]).contains('\n') by {
        lemma_entry_is_read(sets[r], ys[r], n_features as nat);
    }
    lemma_joined_parts(rows, '\n');
    let lines = sparse_lines(sparse_list(sets, ys), n_features as nat);
    assert forall|r: int| 0 <= r < lines.len() implies #[trigger] lines[r] == (LineModel::Row {
        x: bits[r],
        y: ys[r],
    }) by {
        lemma_entry_is_read(sets[r], ys[r], n_features as nat);
    }
    lemma_rows_collected(lines, bits, ys, lines.len());
    assert(bits.take(lines.len() as int) =~= bits);
    assert(ys.take(lines.len() as int) =~= ys);
}

/// The first line of a table may be a heading: where its first cell is no integer, it is skipped.
/// No other line is; there the cell is what cannot be read. Everything else about a line is the
/// same wherever it stands, and a line with fewer than two cells is skipped anywhere.
pub proof fn lemma_headings_come_first(line: Seq<char>, i: int)
    requires
        i > 0,
    ensures
        ({
            let parts = parts_of(trimmed(line), ',');
            let first = integer_of(trimmed(parts[0]));
            &&& parts.len() < 2 ==> binary_line(line, 0) is Skip && binary_line(line, i) is Skip
            &&& parts.len() >= 2 && first is None ==> binary_line(line, 0) is Skip && binary_line(
                line,
                i,
            ) == (LineModel::Bad { kind: DataErrorKind::NotInteger })
            &&& parts.len() >= 2 && first is Some ==> binary_line(line, 0) == binary_line(line, i)
                && !(binary_line(line, i) is Skip)
        }),
{
    let t = trimmed(line);
    let parts = parts_of(t, ',');
    if t.len() == 0 {
        assert(!t.contains(','));
        lemma_parts_meet_at_separators(t, Seq::empty(), ',');
        assert(parts.len() == 1);
    }
    if parts.len() >= 2 {
        let cols = columns_of(line);
        assert(cols[0] == trimmed(parts[0]));
        if integer_of(cols[0]) is None {
            assert(exists|k: int|
                0 <= k < cols.len() - 1 && integer_of(#[trigger] cols[k]) is None);
        }
    }
}

/// A row of a table cannot be read if one of its features is no integer, and else if its last
/// cell is no class.
pub proof fn lemma_bad_cells(line: Seq<char>, i: int, k: int)
    requires
        i > 0,
        parts_of(trimmed(line), ',').len() >= 2,
        0 <= k < parts_of(trimmed(line), ',').len() - 1,
    ensures
        ({
            let parts = parts_of(trimmed(line), ',');
            let label = size_of_text(trimmed(parts[parts.len() - 1]));
            &&& integer_of(trimmed(parts[k])) is None ==> binary_line(line, i) == (LineModel::Bad {
                kind: DataErrorKind::NotInteger,
            })
            &&& binary_line(line, i) is Row ==> {
                &&& label == Some(binary_line(line, i)->y)
                &&& binary_line(line, i)->x.len() == parts.len() - 1
                &&& integer_of(trimmed(parts[k])) is Some
                &&& binary_line(line, i)->x[k] == if integer_of(trimmed(parts[k])) == Some(0i64) {
                    0u8
                } else {
                    1u8
                }
            }
            &&& binary_line(line, i) == (LineModel::Bad { kind: DataErrorKind::BadLabel })
                ==> label is None && integer_of(trimmed(parts[k])) is Some
            &&& label is None ==> binary_line(line, i) is Bad
            &&& !(binary_line(line, i) is Skip)
        }),
{
    let t = trimmed(line);
    let parts = parts_of(t, ',');
    if t.len() == 0 {
        assert(!t.contains(','));
        lemma_parts_meet_at_separators(t, Seq::empty(), ',');
        assert(parts.len() == 1);
    }
    let cols = columns_of(line);
    assert(cols[k] == trimmed(parts[k]));
    assert(cols[cols.len() - 1] == trimmed(parts[parts.len() - 1]));
    if integer_of(cols[k]) is None {
        assert(exists|j: int| 0 <= j < cols.len() - 1 && integer_of(#[trigger] cols[j]) is None);
    }
}

/// A line of a sparse list without words is skipped. Its first word has to be a class, and each
/// further word an index.
pub proof fn lemma_bad_entries(line: Seq<char>, n_features: nat, k: int)
    requires
        1 <= k < words_of(line).len(),
    ensures
        ({
            let words = words_of(line);
            let label = size_of_text(words[0]);
            &&& label is None <==> sparse_line(line, n_features) == (LineModel::Bad {
                kind: DataErrorKind::BadLabel,
            })
            &&& label is Some && size_of_text(words[k]) is None ==> sparse_line(line, n_features) == (
            LineModel::Bad { kind: DataErrorKind::BadIndex })
            &&& sparse_line(line, n_features) is Row ==> {
                &&& label == Some(sparse_line(line, n_features)->y)
                &&& sparse_line(line, n_features)->x.len() == n_features
                &&& size_of_text(words[k]) is Some
                &&& size_of_text(words[k])->0 < n_features ==> sparse_line(
                    line,
                    n_features,
                )->x[size_of_text(words[k])->0 as int] == 1
            }
            &&& !(sparse_line(line, n_features) is Skip)
        }),
{
    let words = words_of(line);
    if size_of_text(words[k]) is Some {
        let f = size_of_text(words[k])->0;
        assert(listed(words, f as int));
    }
}

/// Only lines without words are skipped in a sparse list.
pub proof fn lemma_blank_entries(line: Seq<char>, n_features: nat)
    ensures
        sparse_line(line, n_features) is Skip <==> words_of(line).len() == 0,
{
}

/// The class written as a number is the nearest integer, halves upwards, as far as it can be one:
/// below 0 and for what is no number it is 0, and beyond the largest class it is that class.
pub proof fn lemma_class_is_nearest(v: Number)
    ensures
        v.is_nan() ==> class_of(v) == 0,
        v.0 >= SIGN_BIT ==> class_of(v) == 0,
        v.0 == INFINITY_BITS ==> class_of(v) == usize::MAX,
        v.0 < INFINITY_BITS ==> {
            let d = f64_value(v.0);
            let r = class_of(v);
            &&& 0 <= r <= usize::MAX
            &&& d.exp >= 0 && r < usize::MAX ==> r == d.mant * pow2(d.exp as nat)
            &&& d.exp >= 0 && r == usize::MAX ==> r <= d.mant * pow2(d.exp as nat)
            &&& d.exp < 0 ==> (2 * r - 1) * pow2((-d.exp) as nat) <= 2 * d.mant
            &&& d.exp < 0 && r < usize::MAX ==> 2 * d.mant < (2 * r + 1) * pow2((-d.exp) as nat)
        },
{
    if v.0 < INFINITY_BITS {
        let d = f64_value(v.0);
        if d.exp < 0 {
            let q = pow2((-d.exp) as nat) as int;
            lemma_pow2_pos((-d.exp) as nat);
            let a = 2 * d.mant + q;
            let whole = a / (2 * q);
            let r = class_of(v);
            lemma_fundamental_div_mod(a, 2 * q);
            assert(0 <= a % (2 * q) < 2 * q) by (nonlinear_arith)
                requires
                    q > 0,
            ;
            assert(whole >= 0) by (nonlinear_arith)
                requires
                    whole == a / (2 * q),
                    a >= 0,
                    q > 0,
            ;
            assert((2 * whole - 1) * q <= 2 * d.mant < (2 * whole + 1) * q) by (nonlinear_arith)
                requires
                    a == (2 * q) * whole + a % (2 * q),
                    0 <= a % (2 * q) < 2 * q,
                    a == 2 * d.mant + q,
            ;
            assert(r <= whole);
            assert((2 * r - 1) * q <= (2 * whole - 1) * q) by (nonlinear_arith)
                requires
                    r <= whole,
                    q > 0,
            ;
        } else {
            lemma_pow2_pos(d.exp as nat);
            assert(d.mant * pow2(d.exp as nat) >= 0) by (nonlinear_arith)
                requires
                    d.mant >= 0,
                    pow2(d.exp as nat) > 0,
            ;
        }
    }
}

/// The lines of a table of numbers are kept in order, each with its last number as its class. The
/// first line may be a heading; the first other line that is not numeric is the one that is named.
pub proof fn lemma_numeric_lines_in_order(lines: Seq<ParsedLine>, n: nat)
    requires
        n <= lines.len(),
        forall|i: int|
            0 <= i < lines.len() ==> {
                &&& (#[trigger] lines[i]).line < usize::MAX
                &&& lines[i].values matches Some(v) ==> v@.len() >= 1
            },
    ensures
        match numeric_dataset(lines, n) {
            Ok((xs, ys)) => {
                let rows = lines.take(n as int).filter(|l: ParsedLine| l.values is Some);
                &&& forall|i: int|
                    0 <= i < n && (#[trigger] lines[i]).line != 0 ==> lines[i].values is Some
                &&& xs == rows.map_values(|l: ParsedLine| l.values->0@.drop_last())
                &&& ys == rows.map_values(|l: ParsedLine| class_of(l.values->0@.last()) as usize)
            },
            Err(e) => {
                &&& e.kind == DataErrorKind::NotNumeric
                &&& exists|i: int|
                    {
                        &&& 0 <= i < n
                        &&& (#[trigger] lines[i]).values is None
                        &&& lines[i].line != 0
                        &&& e.line == lines[i].line + 1
                        &&& forall|j: int|
                            0 <= j < i && (#[trigger] lines[j]).line != 0 ==> lines[j].values is Some
                    }
            },
        },
    decreases n,
{
    reveal(Seq::filter);
    let row = |l: ParsedLine| l.values is Some;
    let features = |l: ParsedLine| l.values->0@.drop_last();
    let class = |l: ParsedLine| class_of(l.values->0@.last()) as usize;
    if n > 0 {
        lemma_numeric_lines_in_order(lines, (n - 1) as nat);
        let l = lines[n - 1];
        let taken = lines.take(n as int);
        let before = lines.take(n - 1).filter(row);
        assert(taken.drop_last() =~= lines.take(n - 1));
        assert(taken.last() == l);
        assert(taken.filter(row) == if row(l) {
            before.push(l)
        } else {
            before
        });
        assert(before.push(l).map_values(features) =~= before.map_values(features).push(
            features(l),
        ));
        assert(before.push(l).map_values(class) =~= before.map_values(class).push(class(l)));
        if let Some(v) = l.values {
            assert(v@.take(v@.len() - 1) =~= v@.drop_last());
        }
    } else {
        assert(lines.take(0) =~= Seq::empty());
        assert(lines.take(0).filter(row) =~= Seq::empty());
    }
}

/// The lines of a table of numbers that are kept are those with at least two cells, in order, each
/// with its place and its cells without the spaces around them.
pub proof fn lemma_cells_of_lines(lines: Seq<Seq<char>>, n: nat)
    requires
        n <= lines.len(),
        n <= usize::MAX,
    ensures
        forall|k: int|
            0 <= k < column_lines(lines, n).len() ==> {
                let kept = #[trigger] column_lines(lines, n)[k];
                let parts = parts_of(trimmed(lines[kept.0 as int]), ',');
                &&& 0 <= kept.0 < n
                &&& parts.len() >= 2
                &&& kept.1 == parts.map_values(|c: Seq<char>| trimmed(c))
            },
        forall|k: int, l: int|
            0 <= k < l < column_lines(lines, n).len() ==> (#[trigger] column_lines(lines, n)[k]).0
                < (#[trigger] column_lines(lines, n)[l]).0,
        forall|i: int|
            0 <= i < n && parts_of(trimmed(#[trigger] lines[i]), ',').len() >= 2 ==> exists|k: int|
                0 <= k < column_lines(lines, n).len() && (#[trigger] column_lines(lines, n)[k]).0
                    == i,
    decreases n,
{
    if n > 0 {
        lemma_cells_of_lines(lines, (n - 1) as nat);
        let before = column_lines(lines, (n - 1) as nat);
        let list = column_lines(lines, n);
        let line = lines[n - 1];
        let t = trimmed(line);
        let parts = parts_of(t, ',');
        if t.len() == 0 {
            assert(!t.contains(','));
            lemma_parts_meet_at_separators(t, Seq::empty(), ',');
            assert(parts.len() == 1);
        }
        if parts.len() >= 2 {
            assert(columns_of(line) =~= parts.map_values(|c: Seq<char>| trimmed(c)));
            assert(list[before.len() as int].0 == n - 1);
        }
        assert forall|i: int|
            0 <= i < n && parts_of(trimmed(#[trigger] lines[i]), ',').len() >= 2 implies exists|k: int|
            0 <= k < list.len() && (#[trigger] list[k]).0 == i by {
            if i < n - 1 {
                let k = choose|k: int| 0 <= k < before.len() && (#[trigger] before[k]).0 == i;
                assert(list[k] == before[k]);
            } else {
                assert(list[before.len() as int].0 == i);
            }
        }
    }
}

} // verus!
