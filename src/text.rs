//! Reading a puzzle from text and writing grids as text.
use vstd::prelude::*;

use crate::grid::{cell_at, flatten, lemma_coords_cell};

verus! {

/// Whether `c` has the Unicode White_Space property: the ASCII tab, line
/// feed, vertical tab, form feed, carriage return and space, and U+0085,
/// U+00A0, U+1680, U+2000 to U+200A, U+2028, U+2029, U+202F, U+205F, U+3000.
pub open spec fn white_space(c: char) -> bool {
    let n = c as u32;
    (0x09 <= n <= 0x0d) || n == 0x20 || n == 0x85 || n == 0xa0 || n == 0x1680 || (0x2000 <= n
        <= 0x200a) || n == 0x2028 || n == 0x2029 || n == 0x202f || n == 0x205f || n == 0x3000
}

/// Relies on `char::is_whitespace`: true exactly for the characters with
/// the Unicode White_Space property.
#[verifier::external_body]
fn is_blank(c: char) -> (r: bool)
    ensures
        r == white_space(c),
{
    c.is_whitespace()
}

/// Relies on `String::push`: the character is appended at the end.
#[verifier::external_body]
fn push_char(s: &mut String, c: char)
    ensures
        final(s)@ == old(s)@.push(c),
{
    s.push(c)
}

/// The character of digit `d`.
pub open spec fn digit_char(d: u8) -> char {
    (d + 48) as char
}

/// `c` is one of the ASCII digits `0` to `9`.
pub open spec fn is_digit(c: char) -> bool {
    '0' <= c <= '9'
}

/// The value of digit character `c`.
pub open spec fn digit_value(c: char) -> u8 {
    (c as int - 48) as u8
}

// ----- parsing -----

/// The cells that one line of text gives: a digit gives its value, any other
/// character that is not white space gives 0 (an unfilled cell), and white
/// space gives nothing.
pub open spec fn line_cells(line: Seq<char>) -> Seq<u8>
    decreases line.len(),
{
    if line.len() == 0 {
        Seq::empty()
    } else {
        let prev = line_cells(line.drop_last());
        let c = line.last();
        if is_digit(c) {
            prev.push(digit_value(c))
        } else if !white_space(c) {
            prev.push(0)
        } else {
            prev
        }
    }
}

/// The pieces of `s` between newline characters (one more than there are
/// newlines).
pub open spec fn split_lines(s: Seq<char>) -> Seq<Seq<char>>
    decreases s.len(),
{
    if s.len() == 0 {
        seq![Seq::empty()]
    } else {
        let prev = split_lines(s.drop_last());
        if s.last() == '\n' {
            prev.push(Seq::empty())
        } else {
            prev.update(prev.len() - 1, prev.last().push(s.last()))
        }
    }
}

/// The cells of each line that gives any, in order.
pub open spec fn kept_rows(lines: Seq<Seq<char>>) -> Seq<Seq<u8>>
    decreases lines.len(),
{
    if lines.len() == 0 {
        Seq::empty()
    } else {
        let prev = kept_rows(lines.drop_last());
        let cells = line_cells(lines.last());
        if cells.len() > 0 {
            prev.push(cells)
        } else {
            prev
        }
    }
}

/// The rows of cells that text `s` describes: blank lines are skipped.
pub open spec fn text_rows(s: Seq<char>) -> Seq<Seq<u8>> {
    kept_rows(split_lines(s))
}

proof fn lemma_split_lines_nonempty(s: Seq<char>)
    ensures
        split_lines(s).len() >= 1,
    decreases s.len(),
{
    if s.len() > 0 {
        lemma_split_lines_nonempty(s.drop_last());
    }
}

/// The rows and the partial row that the parser holds after reading the
/// first `i` characters of `s`.
pub open spec fn rows_read(s: Seq<char>, i: int) -> Seq<Seq<u8>> {
    kept_rows(split_lines(s.take(i)).drop_last())
}

pub open spec fn row_read(s: Seq<char>, i: int) -> Seq<u8> {
    line_cells(split_lines(s.take(i)).last())
}

/// Rows of cells read from text, as `text_rows` describes them.
#[verifier::rlimit(40)]
pub fn read_rows(s: &str) -> (r: Vec<Vec<u8>>)
    ensures
        r@.map_values(|row: Vec<u8>| row@) == text_rows(s@),
{
    let n = s.unicode_len();
    let mut grid: Vec<Vec<u8>> = Vec::new();
    let mut row: Vec<u8> = Vec::new();
    let mut i: usize = 0;
    proof {
        assert(s@.take(0) =~= Seq::<char>::empty());
        assert(split_lines(s@.take(0)).drop_last() =~= Seq::<Seq<char>>::empty());
        assert(row@ =~= row_read(s@, 0));
        assert(grid@.map_values(|row: Vec<u8>| row@) =~= rows_read(s@, 0));
    }
    while i < n
        invariant
            n == s@.len(),
            i <= n,
            grid@.map_values(|row: Vec<u8>| row@) == rows_read(s@, i as int),
            row@ == row_read(s@, i as int),
        decreases n - i,
    {
        let c = s.get_char(i);
        let ghost pre = s@.take(i as int);
        let ghost post = s@.take(i + 1);
        proof {
            assert(post.drop_last() =~= pre);
            assert(post.last() == c);
            lemma_split_lines_nonempty(pre);
        }
        if c == '\n' {
            if row.len() > 0 {
                let ghost before = grid@;
                grid.push(row);
                proof {
                    assert(grid@.map_values(|row: Vec<u8>| row@) =~= before.map_values(
                        |row: Vec<u8>| row@,
                    ).push(row_read(s@, i as int)));
                    assert(split_lines(pre).drop_last().push(split_lines(pre).last()) =~= split_lines(pre));
                }
            } else {
                proof {
                    assert(split_lines(pre).drop_last().push(split_lines(pre).last()) =~= split_lines(pre));
                }
            }
            row = Vec::new();
            proof {
                assert(split_lines(post).drop_last() =~= split_lines(pre));
                assert(row@ =~= row_read(s@, i + 1));
            }
        } else {
            let ghost line = split_lines(pre).last();
            proof {
                assert(split_lines(post).drop_last() =~= split_lines(pre).drop_last());
                assert(split_lines(post).last() =~= line.push(c));
                assert(line.push(c).drop_last() =~= line);
            }
            if '0' <= c && c <= '9' {
                row.push((c as u32 - '0' as u32) as u8);
            } else if !is_blank(c) {
                row.push(0);
            }
        }
        i = i + 1;
    }
    proof {
        assert(s@.take(n as int) =~= s@);
        lemma_split_lines_nonempty(s@);
        assert(split_lines(s@).drop_last().push(split_lines(s@).last()) =~= split_lines(s@));
    }
    if row.len() > 0 {
        let ghost before = grid@;
        grid.push(row);
        proof {
            assert(grid@.map_values(|row: Vec<u8>| row@) =~= before.map_values(|row: Vec<u8>| row@).push(
                row_read(s@, n as int),
            ));
        }
    }
    grid
}

// ----- rendering -----

/// Nine lines of nine digits, one line per row, with no newline after the
/// last line.
pub open spec fn compact_text(g: Seq<u8>) -> Seq<char> {
    Seq::new(89, |i: int| if i % 10 == 9 { '\n' } else { digit_char(g[cell_at(i / 10, i % 10)]) })
}

/// The border line `+-----+-----+-----+`.
pub open spec fn divider() -> Seq<char> {
    Seq::new(19, |i: int| if i % 6 == 0 { '+' } else { '-' })
}

/// How a cell is shown in the bordered form: a blank for 0 when `blank_zero`
/// holds, else its digit.
pub open spec fn shown(d: u8, blank_zero: bool) -> char {
    if blank_zero && d == 0 {
        ' '
    } else {
        digit_char(d)
    }
}

/// Row `y` in the bordered form: `|` before each group of three cells and
/// at the end, a space between cells within a group.
pub open spec fn bordered_row(g: Seq<u8>, y: int, blank_zero: bool) -> Seq<char> {
    Seq::new(
        19,
        |i: int|
            if i % 6 == 0 {
                '|'
            } else if i % 2 == 0 {
                ' '
            } else {
                shown(g[cell_at(y, (i - 1) / 2)], blank_zero)
            },
    )
}

/// The first `n` rows in the bordered form, each ended by a newline, with a
/// border line before rows 0, 3 and 6.
pub open spec fn bordered_rows(g: Seq<u8>, n: int, blank_zero: bool) -> Seq<char>
    decreases n,
{
    if n <= 0 {
        Seq::empty()
    } else {
        bordered_rows(g, n - 1, blank_zero) + (if (n - 1) % 3 == 0 {
            divider().push('\n')
        } else {
            Seq::empty()
        }) + bordered_row(g, n - 1, blank_zero).push('\n')
    }
}

/// The bordered form: the nine rows and a closing border line, with no
/// newline after it.
pub open spec fn bordered_text(g: Seq<u8>, blank_zero: bool) -> Seq<char> {
    bordered_rows(g, 9, blank_zero) + divider()
}

fn push_digit(s: &mut String, d: u8)
    requires
        d <= 9,
    ensures
        final(s)@ == old(s)@.push(digit_char(d)),
{
    push_char(s, (d + 48) as char);
}

/// The compact form of grid `g`.
pub fn render_compact(g: &[[u8; 9]; 9]) -> (r: String)
    requires
        forall|k: int| 0 <= k < 81 ==> #[trigger] flatten(*g)[k] <= 9,
    ensures
        r@ == compact_text(flatten(*g)),
{
    let ghost t = compact_text(flatten(*g));
    let mut s = String::new();
    let mut y: usize = 0;
    while y < 9
        invariant
            y <= 9,
            t == compact_text(flatten(*g)),
            forall|k: int| 0 <= k < 81 ==> #[trigger] flatten(*g)[k] <= 9,
            s@ == t.take(if y == 0 { 0 } else { 10 * y - 1 }),
        decreases 9 - y,
    {
        if y > 0 {
            push_char(&mut s, '\n');
            assert(s@ =~= t.take(10 * y as int));
        }
        let row = g[y];
        let mut x: usize = 0;
        while x < 9
            invariant
                y < 9,
                x <= 9,
                row == g@[y as int],
                t == compact_text(flatten(*g)),
                forall|k: int| 0 <= k < 81 ==> #[trigger] flatten(*g)[k] <= 9,
                s@ == t.take(10 * y + x),
            decreases 9 - x,
        {
            proof {
                lemma_coords_cell(y as int, x as int);
                assert(flatten(*g)[cell_at(y as int, x as int)] == row@[x as int]);
            }
            push_digit(&mut s, row[x]);
            assert(s@ =~= t.take(10 * y + x + 1));
            x = x + 1;
        }
        y = y + 1;
    }
    assert(s@ =~= t);
    s
}

fn push_divider(s: &mut String)
    ensures
        final(s)@ == old(s)@ + divider(),
{
    let ghost start = s@;
    let mut i: usize = 0;
    while i < 19
        invariant
            i <= 19,
            s@ == start + divider().take(i as int),
        decreases 19 - i,
    {
        if i % 6 == 0 {
            push_char(s, '+');
        } else {
            push_char(s, '-');
        }
        assert(s@ =~= start + divider().take(i + 1));
        i = i + 1;
    }
    assert(divider().take(19) =~= divider());
}

fn push_bordered_row(s: &mut String, g: &[[u8; 9]; 9], y: usize, blank_zero: bool)
    requires
        y < 9,
        forall|k: int| 0 <= k < 81 ==> #[trigger] flatten(*g)[k] <= 9,
    ensures
        final(s)@ == old(s)@ + bordered_row(flatten(*g), y as int, blank_zero),
{
    let ghost start = s@;
    let ghost line = bordered_row(flatten(*g), y as int, blank_zero);
    let row = g[y];
    let mut x: usize = 0;
    while x < 9
        invariant
            y < 9,
            x <= 9,
            row == g@[y as int],
            line == bordered_row(flatten(*g), y as int, blank_zero),
            forall|k: int| 0 <= k < 81 ==> #[trigger] flatten(*g)[k] <= 9,
            s@ == start + line.take(2 * x),
        decreases 9 - x,
    {
        if x % 3 == 0 {
            push_char(s, '|');
        } else {
            push_char(s, ' ');
        }
        proof {
            lemma_coords_cell(y as int, x as int);
            assert(flatten(*g)[cell_at(y as int, x as int)] == row@[x as int]);
        }
        let c = row[x];
        if blank_zero && c == 0 {
            push_char(s, ' ');
        } else {
            push_digit(s, c);
        }
        assert(s@ =~= start + line.take(2 * x + 2));
        x = x + 1;
    }
    push_char(s, '|');
    assert(s@ =~= start + line);
}

/// The bordered form of grid `g`; with `blank_zero`, cells holding 0 are
/// shown blank.
pub fn render_bordered(g: &[[u8; 9]; 9], blank_zero: bool) -> (r: String)
    requires
        forall|k: int| 0 <= k < 81 ==> #[trigger] flatten(*g)[k] <= 9,
    ensures
        r@ == bordered_text(flatten(*g), blank_zero),
{
    let mut s = String::new();
    let mut y: usize = 0;
    while y < 9
        invariant
            y <= 9,
            forall|k: int| 0 <= k < 81 ==> #[trigger] flatten(*g)[k] <= 9,
            s@ == bordered_rows(flatten(*g), y as int, blank_zero),
        decreases 9 - y,
    {
        let ghost before = s@;
        if y % 3 == 0 {
            push_divider(&mut s);
            push_char(&mut s, '\n');
        }
        let ghost mid = s@;
        push_bordered_row(&mut s, g, y, blank_zero);
        push_char(&mut s, '\n');
        proof {
            if y % 3 == 0 {
                assert(mid =~= before + divider().push('\n'));
            } else {
                assert(mid =~= before + Seq::<char>::empty());
            }
            assert(s@ =~= bordered_rows(flatten(*g), y + 1, blank_zero));
        }
        y = y + 1;
    }
    push_divider(&mut s);
    s
}

// ----- reading back the compact form -----

/// The nine digit characters of row `r` of `g`.
pub open spec fn row_digits(g: Seq<u8>, r: int) -> Seq<char> {
    Seq::new(9, |c: int| digit_char(g[cell_at(r, c)]))
}

/// The values of row `r` of `g`.
pub open spec fn row_values(g: Seq<u8>, r: int) -> Seq<u8> {
    Seq::new(9, |c: int| g[cell_at(r, c)])
}

/// The lines of the first `n` characters of the compact form.
#[verifier::rlimit(40)]
proof fn lemma_compact_lines(g: Seq<u8>, n: int)
    requires
        0 <= n <= 89,
    ensures
        split_lines(compact_text(g).take(n)) =~= Seq::new(
            (n / 10 + 1) as nat,
            |r: int|
                if r < n / 10 {
                    row_digits(g, r)
                } else {
                    row_digits(g, n / 10).take(n % 10)
                },
        ),
    decreases n,
{
    let t = compact_text(g);
    let want = Seq::new(
        (n / 10 + 1) as nat,
        |r: int|
            if r < n / 10 {
                row_digits(g, r)
            } else {
                row_digits(g, n / 10).take(n % 10)
            },
    );
    if n == 0 {
        assert(t.take(0) =~= Seq::<char>::empty());
        assert(row_digits(g, 0).take(0) =~= Seq::<char>::empty());
        assert(split_lines(t.take(n)) =~= want);
    } else {
        lemma_compact_lines(g, n - 1);
        let j = (n - 1) / 10;
        let m = (n - 1) % 10;
        let prev = split_lines(t.take(n - 1));
        assert(t.take(n).drop_last() =~= t.take(n - 1));
        assert(t.take(n).last() == t[n - 1]);
        assert(prev.len() == j + 1);
        assert(prev[j] == row_digits(g, j).take(m));
        if m == 9 {
            assert(t[n - 1] == '\n');
            assert(split_lines(t.take(n)) == prev.push(Seq::<char>::empty()));
            assert(row_digits(g, j).take(9) =~= row_digits(g, j));
            assert(row_digits(g, j + 1).take(0) =~= Seq::<char>::empty());
            assert(n / 10 == j + 1 && n % 10 == 0);
            assert forall|r: int| 0 <= r < want.len() implies split_lines(t.take(n))[r] == want[r] by {
                if r == j {
                    assert(prev[r] == row_digits(g, j).take(9));
                } else if r < j {
                    assert(prev[r] == row_digits(g, r));
                }
            }
        } else {
            let c = t[n - 1];
            assert(c == digit_char(g[cell_at(j, m)]));
            assert(c != '\n');
            assert(split_lines(t.take(n)) == prev.update(j, prev[j].push(c)));
            assert(row_digits(g, j).take(m).push(c) =~= row_digits(g, j).take(m + 1));
            assert(n / 10 == j && n % 10 == m + 1);
            assert forall|r: int| 0 <= r < want.len() implies split_lines(t.take(n))[r] == want[r] by {
                if r < j {
                    assert(prev[r] == row_digits(g, r));
                }
            }
        }
        assert(split_lines(t.take(n)) =~= want);
    }
}

/// The digits of a row read back as its values.
proof fn lemma_row_cells(g: Seq<u8>, r: int, m: int)
    requires
        0 <= r < 9,
        0 <= m <= 9,
        forall|k: int| 0 <= k < 81 ==> #[trigger] g[k] <= 9,
    ensures
        line_cells(row_digits(g, r).take(m)) =~= row_values(g, r).take(m),
    decreases m,
{
    if m > 0 {
        lemma_row_cells(g, r, m - 1);
        let line = row_digits(g, r).take(m);
        assert(line.drop_last() =~= row_digits(g, r).take(m - 1));
        lemma_coords_cell(r, m - 1);
        let d = g[cell_at(r, m - 1)];
        assert(d <= 9);
        assert(line.last() == digit_char(d));
        assert(is_digit(digit_char(d)));
        assert(digit_value(digit_char(d)) == d);
    }
}

proof fn lemma_kept_rows(g: Seq<u8>, n: int)
    requires
        0 <= n <= 9,
        forall|k: int| 0 <= k < 81 ==> #[trigger] g[k] <= 9,
    ensures
        kept_rows(Seq::new(n as nat, |r: int| row_digits(g, r))) =~= Seq::new(
            n as nat,
            |r: int| row_values(g, r),
        ),
    decreases n,
{
    if n > 0 {
        lemma_kept_rows(g, n - 1);
        let lines = Seq::new(n as nat, |r: int| row_digits(g, r));
        assert(lines.drop_last() =~= Seq::new((n - 1) as nat, |r: int| row_digits(g, r)));
        lemma_row_cells(g, n - 1, 9);
        assert(row_digits(g, n - 1).take(9) =~= row_digits(g, n - 1));
        assert(row_values(g, n - 1).take(9) =~= row_values(g, n - 1));
    }
}

/// Reading the compact form of a grid of values up to 9 gives back its
/// nine rows.
pub proof fn lemma_compact_rows(g: Seq<u8>)
    requires
        g.len() == 81,
        forall|k: int| 0 <= k < 81 ==> #[trigger] g[k] <= 9,
    ensures
        text_rows(compact_text(g)) =~= Seq::new(9, |r: int| row_values(g, r)),
{
    let t = compact_text(g);
    lemma_compact_lines(g, 89);
    assert(t.take(89) =~= t);
    assert(row_digits(g, 8).take(9) =~= row_digits(g, 8));
    assert(split_lines(t) =~= Seq::new(9, |r: int| row_digits(g, r)));
    lemma_kept_rows(g, 9);
}

} // verus!
