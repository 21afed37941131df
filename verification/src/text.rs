//! Turning the cost table into text: decimal digits, space-terminated
//! cells, the header line of source characters, and one labelled line per
//! table row.

use vstd::prelude::*;

verus! {

/// Relies on `String::push`: appends the given character to the end of
/// the string.
pub assume_specification[ String::push ](s: &mut String, ch: char)
    ensures
        final(s)@ == old(s)@.push(ch),
;

/// The character for one decimal digit.
pub open spec fn digit_char(d: int) -> char {
    if d == 0 {
        '0'
    } else if d == 1 {
        '1'
    } else if d == 2 {
        '2'
    } else if d == 3 {
        '3'
    } else if d == 4 {
        '4'
    } else if d == 5 {
        '5'
    } else if d == 6 {
        '6'
    } else if d == 7 {
        '7'
    } else if d == 8 {
        '8'
    } else {
        '9'
    }
}

/// The decimal digits of `n`, most significant first, no leading zeros
/// (a single `'0'` for zero).
pub open spec fn spec_digits(n: int) -> Seq<char>
    recommends
        0 <= n,
    decreases n,
{
    if n <= 9 {
        seq![digit_char(n)]
    } else {
        spec_digits(n / 10).push(digit_char(n % 10))
    }
}

/// One table row as text: each cell's decimal value followed by one space.
pub open spec fn spec_cells(row: Seq<u8>) -> Seq<char>
    decreases row.len(),
{
    if row.len() == 0 {
        Seq::empty()
    } else {
        spec_cells(row.drop_last()) + spec_digits(row.last() as int) + seq![' ']
    }
}

/// The header columns: the margin `"  #"`, then one space and one source
/// character per column.
pub open spec fn spec_header_cols(from: Seq<char>) -> Seq<char>
    decreases from.len(),
{
    if from.len() == 0 {
        seq![' ', ' ', '#']
    } else {
        spec_header_cols(from.drop_last()) + seq![' ', from.last()]
    }
}

/// One rendered table line: its label character, a space, the cells, and
/// a line break.
pub open spec fn spec_row_line(label: char, row: Seq<u8>) -> Seq<char> {
    seq![label, ' '] + spec_cells(row) + seq!['\n']
}

/// The lines for rows 1 and beyond: row `i + 1` of the table is labelled
/// with character `i` of the target.
pub open spec fn spec_body_lines(to: Seq<char>, table: Seq<Seq<u8>>) -> Seq<char>
    recommends
        table.len() == to.len() + 1,
    decreases to.len(),
{
    if to.len() == 0 {
        Seq::empty()
    } else {
        spec_body_lines(to.drop_last(), table.drop_last()) + spec_row_line(
            to.last(),
            table.last(),
        )
    }
}

/// The whole rendered table: the header line, the `#`-labelled base row,
/// then one line per target character.
pub open spec fn spec_render(from: Seq<char>, to: Seq<char>, table: Seq<Seq<u8>>) -> Seq<char> {
    spec_header_cols(from) + seq!['\n'] + spec_row_line('#', table[0]) + spec_body_lines(to, table)
}

/// How many times character `c` occurs in `s`.
pub open spec fn count_char(s: Seq<char>, c: char) -> int
    decreases s.len(),
{
    if s.len() == 0 {
        0
    } else {
        count_char(s.drop_last(), c) + if s.last() == c {
            1int
        } else {
            0int
        }
    }
}

/// Occurrences add up over concatenation.
pub proof fn lemma_count_char_add(s: Seq<char>, t: Seq<char>, c: char)
    ensures
        count_char(s + t, c) == count_char(s, c) + count_char(t, c),
    decreases t.len(),
{
    if t.len() == 0 {
        assert(s + t =~= s);
    } else {
        lemma_count_char_add(s, t.drop_last(), c);
        assert((s + t).drop_last() =~= s + t.drop_last());
        assert((s + t).last() == t.last());
    }
}

/// Decimal digits contain no space.
pub proof fn lemma_digits_no_space(n: int)
    requires
        0 <= n,
    ensures
        count_char(spec_digits(n), ' ') == 0,
    decreases n,
{
    assert(count_char(Seq::<char>::empty(), ' ') == 0);
    if n <= 9 {
        assert(spec_digits(n).last() == digit_char(n));
        assert(spec_digits(n).drop_last() =~= Seq::<char>::empty());
    } else {
        lemma_digits_no_space(n / 10);
        assert(spec_digits(n).drop_last() =~= spec_digits(n / 10));
        assert(spec_digits(n).last() == digit_char(n % 10));
    }
}

/// One space per cell: the text of a row holds exactly as many spaces as
/// the row holds cells.
pub proof fn lemma_cells_count(row: Seq<u8>)
    ensures
        count_char(spec_cells(row), ' ') == row.len(),
    decreases row.len(),
{
    if row.len() > 0 {
        lemma_cells_count(row.drop_last());
        lemma_digits_no_space(row.last() as int);
        lemma_count_char_add(
            spec_cells(row.drop_last()) + spec_digits(row.last() as int),
            seq![' '],
            ' ',
        );
        lemma_count_char_add(spec_cells(row.drop_last()), spec_digits(row.last() as int), ' ');
        assert(seq![' '].drop_last() =~= Seq::<char>::empty());
        assert(seq![' '].last() == ' ');
        assert(count_char(Seq::<char>::empty(), ' ') == 0);
        assert(count_char(seq![' '], ' ') == 1);
    }
}

/// The margin of the header: its length, and the three characters that
/// precede the first column.
pub proof fn lemma_header_len(from: Seq<char>)
    ensures
        spec_header_cols(from).len() == 3 + 2 * from.len(),
        spec_header_cols(from)[0] == ' ',
        spec_header_cols(from)[1] == ' ',
        spec_header_cols(from)[2] == '#',
    decreases from.len(),
{
    if from.len() > 0 {
        lemma_header_len(from.drop_last());
    }
}

/// Source character `k` stands in the header at offset `4 + 2k`, preceded
/// by a space.
pub proof fn lemma_header_col_at(from: Seq<char>, k: int)
    requires
        0 <= k < from.len(),
    ensures
        spec_header_cols(from)[3 + 2 * k] == ' ',
        spec_header_cols(from)[4 + 2 * k] == from[k],
    decreases from.len(),
{
    lemma_header_len(from.drop_last());
    if k < from.len() - 1 {
        lemma_header_col_at(from.drop_last(), k);
        assert(from.drop_last()[k] == from[k]);
    }
}

/// The shape of the header columns: three margin characters, then the
/// source characters in order, one at every even offset past the margin,
/// each preceded by a space.
pub proof fn lemma_header_cols(from: Seq<char>)
    ensures
        spec_header_cols(from).len() == 3 + 2 * from.len(),
        spec_header_cols(from)[0] == ' ',
        spec_header_cols(from)[1] == ' ',
        spec_header_cols(from)[2] == '#',
        forall|k: int|
            0 <= k < from.len() ==> spec_header_cols(from)[4 + 2 * k] == #[trigger] from[k],
{
    lemma_header_len(from);
    assert forall|k: int|
        0 <= k < from.len() implies spec_header_cols(from)[4 + 2 * k] == #[trigger] from[k] by {
        lemma_header_col_at(from, k);
    }
}

/// Peeling the last line off the body: the line for target character `i`
/// is the row line of table row `i + 1`, labelled with that character.
pub proof fn lemma_body_lines_snoc(to: Seq<char>, table: Seq<Seq<u8>>, i: int)
    requires
        0 <= i < to.len(),
        table.len() > i + 1,
    ensures
        spec_body_lines(to.take(i + 1), table.take(i + 2)) == spec_body_lines(
            to.take(i),
            table.take(i + 1),
        ) + spec_row_line(to[i], table[i + 1]),
{
    assert(to.take(i + 1).drop_last() =~= to.take(i));
    assert(to.take(i + 1).last() == to[i]);
    assert(table.take(i + 2).drop_last() =~= table.take(i + 1));
    assert(table.take(i + 2).last() == table[i + 1]);
}

/// The structure of a rendered table, for any table with one more row
/// than the target has characters: the header line lists exactly the
/// source characters in order; the body is the base row line followed by
/// one line per target character, each labelled with that character; and
/// every line's cell text carries exactly one space per cell, so a row of
/// `w + 1` cells shows `w + 1` of them.
pub proof fn lemma_render_structure(from: Seq<char>, to: Seq<char>, table: Seq<Seq<u8>>)
    requires
        table.len() == to.len() + 1,
    ensures
        spec_render(from, to, table) == spec_header_cols(from) + seq!['\n'] + spec_row_line(
            '#',
            table[0],
        ) + spec_body_lines(to, table),
        spec_header_cols(from).len() == 3 + 2 * from.len(),
        forall|k: int|
            0 <= k < from.len() ==> spec_header_cols(from)[4 + 2 * k] == #[trigger] from[k],
        forall|i: int|
            0 <= i < to.len() ==> spec_body_lines(to.take(i + 1), table.take(i + 2))
                == spec_body_lines(to.take(i), table.take(i + 1)) + spec_row_line(
                #[trigger] to[i],
                table[i + 1],
            ),
        forall|i: int|
            0 <= i < to.len() ==> spec_row_line(#[trigger] to[i], table[i + 1])[0] == to[i],
        forall|i: int|
            0 <= i < table.len() ==> count_char(spec_cells(#[trigger] table[i]), ' ')
                == table[i].len(),
        spec_body_lines(to.take(to.len() as int), table.take(to.len() as int + 1))
            == spec_body_lines(to, table),
{
    lemma_header_cols(from);
    assert forall|i: int| 0 <= i < to.len() implies spec_body_lines(
        to.take(i + 1),
        table.take(i + 2),
    ) == spec_body_lines(to.take(i), table.take(i + 1)) + spec_row_line(
        #[trigger] to[i],
        table[i + 1],
    ) by {
        lemma_body_lines_snoc(to, table, i);
    }
    assert forall|i: int| 0 <= i < to.len() implies spec_row_line(#[trigger] to[i], table[i + 1])[0]
        == to[i] by {
        assert(spec_row_line(to[i], table[i + 1])[0] == seq![to[i], ' '][0]);
    }
    assert forall|i: int| 0 <= i < table.len() implies count_char(
        spec_cells(#[trigger] table[i]),
        ' ',
    ) == table[i].len() by {
        lemma_cells_count(table[i]);
    }
    assert(to.take(to.len() as int) =~= to);
    assert(table.take(to.len() as int + 1) =~= table);
}

/// Appends the character for the decimal digit `d`.
pub(crate) fn push_digit(s: &mut String, d: u8)
    requires
        d <= 9,
    ensures
        final(s)@ == old(s)@.push(digit_char(d as int)),
{
    let c = if d == 0 {
        '0'
    } else if d == 1 {
        '1'
    } else if d == 2 {
        '2'
    } else if d == 3 {
        '3'
    } else if d == 4 {
        '4'
    } else if d == 5 {
        '5'
    } else if d == 6 {
        '6'
    } else if d == 7 {
        '7'
    } else if d == 8 {
        '8'
    } else {
        '9'
    };
    s.push(c);
}

/// Appends the decimal digits of `n`.
pub(crate) fn push_number(s: &mut String, n: u8)
    ensures
        final(s)@ == old(s)@ + spec_digits(n as int),
    decreases n,
{
    if n <= 9 {
        push_digit(s, n);
        proof {
            assert(old(s)@.push(digit_char(n as int)) =~= old(s)@ + spec_digits(n as int));
        }
    } else {
        push_number(s, n / 10);
        push_digit(s, n % 10);
        proof {
            assert((old(s)@ + spec_digits(n as int / 10)).push(digit_char(n as int % 10)) =~= old(
                s,
            )@ + spec_digits(n as int));
        }
    }
}

/// Appends every cell of `row`, each followed by one space.
pub(crate) fn push_cells(s: &mut String, row: &Vec<u8>)
    ensures
        final(s)@ == old(s)@ + spec_cells(row@),
{
    let len = row.len();
    let mut k: usize = 0;
    while k < len
        invariant
            k <= len,
            len == row@.len(),
            s@ == old(s)@ + spec_cells(row@.take(k as int)),
        decreases len - k,
    {
        push_number(s, row[k]);
        s.push(' ');
        proof {
            let kk = k as int;
            assert(row@.take(kk + 1).drop_last() =~= row@.take(kk));
            assert(row@.take(kk + 1).last() == row@[kk]);
            assert(s@ =~= old(s)@ + spec_cells(row@.take(kk + 1)));
        }
        k = k + 1;
    }
    proof {
        assert(row@.take(row@.len() as int) =~= row@);
    }
}

} // verus!
