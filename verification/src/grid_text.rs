//! The text form of a grid of counts: its width and its height on a line each, then one line
//! per row with the values separated by tabs, all numbers in decimal.
use vstd::prelude::*;
use crate::grid::{rows, Grid};

verus! {

/// The byte of a newline.
pub const NEWLINE: u8 = 10;

/// The byte of a tab.
pub const TAB: u8 = 9;

/// The byte of a plus sign.
pub const PLUS: u8 = 43;

pub open spec fn is_digit(b: u8) -> bool {
    48 <= b <= 57
}

/// The decimal digits of `n`, most significant first, without leading zeros.
pub open spec fn decimal(n: nat) -> Seq<u8>
    decreases n,
{
    if n < 10 {
        seq![(48 + n) as u8]
    } else {
        decimal(n / 10).push((48 + n % 10) as u8)
    }
}

/// The number written by a string of digits.
pub open spec fn digits_value(s: Seq<u8>) -> nat
    decreases s.len(),
{
    if s.len() == 0 {
        0
    } else {
        digits_value(s.drop_last()) * 10 + (s.last() - 48) as nat
    }
}

/// The field without its leading plus sign, if it has one.
pub open spec fn unsigned_part(s: Seq<u8>) -> Seq<u8> {
    if s.len() > 0 && s[0] == PLUS {
        s.subrange(1, s.len() as int)
    } else {
        s
    }
}

/// The value of one or more digits that fits a `usize`.
pub open spec fn parse_digits(d: Seq<u8>) -> Option<nat> {
    if d.len() > 0 && (forall|i: int| 0 <= i < d.len() ==> is_digit(#[trigger] d[i])) && digits_value(d) <= usize::MAX {
        Some(digits_value(d))
    } else {
        None
    }
}

/// The `usize` that a field reads as: an optional plus sign, then one or more digits whose
/// value fits a `usize`.
pub open spec fn parse_number(s: Seq<u8>) -> Option<nat> {
    parse_digits(unsigned_part(s))
}

/// The pieces of `s` between the separators, as many as there are separators plus one.
pub open spec fn split(s: Seq<u8>, sep: u8) -> Seq<Seq<u8>>
    decreases s.len(),
{
    if s.len() == 0 {
        seq![Seq::empty()]
    } else {
        let prev = split(s.drop_last(), sep);
        if s.last() == sep {
            prev.push(Seq::empty())
        } else {
            prev.update(prev.len() - 1, prev.last().push(s.last()))
        }
    }
}

/// The pieces with a separator between each two; nothing for no pieces.
pub open spec fn join(parts: Seq<Seq<u8>>, sep: u8) -> Seq<u8>
    decreases parts.len(),
{
    if parts.len() == 0 {
        Seq::empty()
    } else if parts.len() == 1 {
        parts[0]
    } else {
        join(parts.drop_last(), sep).push(sep) + parts.last()
    }
}

/// The text of a row: its values in decimal, separated by tabs.
pub open spec fn row_text(row: Seq<usize>) -> Seq<u8> {
    join(row.map_values(|v: usize| decimal(v as nat)), TAB)
}

/// The text of a grid: the width and the height on a line each, then the rows.
pub open spec fn grid_text(width: nat, height: nat, cells: Seq<Seq<usize>>) -> Seq<u8> {
    decimal(width) + seq![NEWLINE] + decimal(height) + seq![NEWLINE] + join(
        cells.map_values(|r: Seq<usize>| row_text(r)),
        NEWLINE,
    )
}

/// What the text reads as, if every number in it parses: the width, the height and the rows
/// of values.
pub open spec fn parse_grid_text(s: Seq<u8>) -> Option<(nat, nat, Seq<Seq<nat>>)> {
    let lines = split(s, NEWLINE);
    if lines.len() >= 2 && parse_number(lines[0]) is Some && parse_number(lines[1]) is Some && (forall|i: int, j: int|
        2 <= i < lines.len() && 0 <= j < split(lines[i], TAB).len() ==> #[trigger] parse_number(
            split(lines[i], TAB)[j],
        ) is Some) {
        Some(
            (
                parse_number(lines[0])->0,
                parse_number(lines[1])->0,
                Seq::new(
                    (lines.len() - 2) as nat,
                    |i: int| split(lines[i + 2], TAB).map_values(|f: Seq<u8>| parse_number(f)->0),
                ),
            ),
        )
    } else {
        None
    }
}

/// Appends the decimal digits of `n`.
fn push_decimal(out: &mut Vec<u8>, n: usize)
    ensures
        final(out)@ == old(out)@ + decimal(n as nat),
    decreases n,
{
    if n >= 10 {
        push_decimal(out, n / 10);
    }
    let ghost before = out@;
    out.push(48 + (n % 10) as u8);
    proof {
        if n >= 10 {
            assert(out@ =~= old(out)@ + decimal(n as nat));
        } else {
            assert(out@ =~= old(out)@ + decimal(n as nat));
        }
    }
}

/// The join of one more piece.
proof fn lemma_join_push(parts: Seq<Seq<u8>>, sep: u8, k: int)
    requires
        0 <= k < parts.len(),
    ensures
        join(parts.take(k + 1), sep) == if k == 0 {
            parts[0]
        } else {
            join(parts.take(k), sep).push(sep) + parts[k]
        },
{
    assert(parts.take(k + 1).drop_last() =~= parts.take(k));
}

impl Grid<usize> {
    /// The text form of the grid, row by row as stored.
    pub fn to_text(&self) -> (text: Vec<u8>)
        ensures
            text@ == grid_text(self.width as nat, self.height as nat, rows(self.cell_values@)),
    {
        let mut out: Vec<u8> = Vec::new();
        push_decimal(&mut out, self.width);
        out.push(NEWLINE);
        push_decimal(&mut out, self.height);
        out.push(NEWLINE);
        let ghost head = out@;
        let ghost texts = rows(self.cell_values@).map_values(|r: Seq<usize>| row_text(r));
        proof {
            assert(head =~= decimal(self.width as nat) + seq![NEWLINE] + decimal(self.height as nat) + seq![NEWLINE]);
            assert(texts.take(0) =~= Seq::<Seq<u8>>::empty());
        }
        for y in 0..self.cell_values.len()
            invariant
                texts == rows(self.cell_values@).map_values(|r: Seq<usize>| row_text(r)),
                texts.len() == self.cell_values@.len(),
                out@ == head + join(texts.take(y as int), NEWLINE),
        {
            let ghost before = out@;
            if y > 0 {
                out.push(NEWLINE);
            }
            let ghost line_start = out@;
            let row = &self.cell_values[y];
            let ghost vals = row@.map_values(|v: usize| decimal(v as nat));
            proof {
                assert(vals.take(0) =~= Seq::<Seq<u8>>::empty());
                assert(out@ =~= line_start + join(vals.take(0), TAB));
            }
            for x in 0..row.len()
                invariant
                    vals == row@.map_values(|v: usize| decimal(v as nat)),
                    out@ == line_start + join(vals.take(x as int), TAB),
            {
                if x > 0 {
                    out.push(TAB);
                }
                push_decimal(&mut out, row[x]);
                proof {
                    lemma_join_push(vals, TAB, x as int);
                    assert(out@ =~= line_start + join(vals.take(x + 1), TAB));
                }
            }
            proof {
                assert(vals.take(row@.len() as int) =~= vals);
                assert(texts[y as int] == row_text(row@));
                lemma_join_push(texts, NEWLINE, y as int);
                assert(out@ =~= head + join(texts.take(y + 1), NEWLINE));
            }
        }
        proof {
            assert(texts.take(texts.len() as int) =~= texts);
        }
        out
    }
}

/// The byte strings of a list of vectors.
pub open spec fn views(parts: Seq<Vec<u8>>) -> Seq<Seq<u8>> {
    parts.map_values(|v: Vec<u8>| v@)
}

/// The pieces of `s` between the separators.
fn split_bytes(s: &[u8], sep: u8) -> (parts: Vec<Vec<u8>>)
    ensures
        views(parts@) == split(s@, sep),
{
    let mut parts: Vec<Vec<u8>> = Vec::new();
    let mut current: Vec<u8> = Vec::new();
    proof {
        assert(s@.take(0) =~= Seq::<u8>::empty());
        assert(views(parts@).push(current@) =~= split(s@.take(0), sep));
    }
    for i in 0..s.len()
        invariant
            views(parts@).push(current@) == split(s@.take(i as int), sep),
    {
        let b = s[i];
        let ghost before = views(parts@).push(current@);
        proof {
            assert(s@.take(i + 1).drop_last() =~= s@.take(i as int));
            assert(s@.take(i + 1).last() == b);
        }
        if b == sep {
            parts.push(current);
            current = Vec::new();
            proof {
                assert(views(parts@).push(current@) =~= before.push(Seq::empty()));
            }
        } else {
            current.push(b);
            proof {
                assert(views(parts@).push(current@) =~= before.update(before.len() - 1, before.last().push(b)));
            }
        }
    }
    proof {
        assert(s@.take(s@.len() as int) =~= s@);
    }
    parts.push(current);
    parts
}

/// Digits before more digits are worth no more than all of them.
proof fn lemma_digits_value_prefix(d: Seq<u8>, k: int)
    requires
        0 <= k <= d.len(),
        forall|i: int| 0 <= i < d.len() ==> is_digit(#[trigger] d[i]),
    ensures
        digits_value(d.take(k)) <= digits_value(d),
    decreases d.len() - k,
{
    if k < d.len() {
        lemma_digits_value_prefix(d, k + 1);
        assert(d.take(k + 1).drop_last() =~= d.take(k));
    } else {
        assert(d.take(k) =~= d);
    }
}

/// The `usize` that the field reads as, if any.
fn parse_number_bytes(s: &[u8]) -> (r: Option<usize>)
    ensures
        r == match parse_number(s@) {
            Some(v) => Some(v as usize),
            None => None::<usize>,
        },
        parse_number(s@) matches Some(v) ==> v <= usize::MAX,
{
    let start: usize = if s.len() > 0 && s[0] == PLUS {
        1
    } else {
        0
    };
    let ghost d = unsigned_part(s@);
    proof {
        if start == 0 {
            assert(s@.subrange(0, s@.len() as int) =~= s@);
        }
    }
    if start >= s.len() {
        return None;
    }
    let mut value: usize = 0;
    proof {
        assert(d.take(0) =~= Seq::<u8>::empty());
    }
    for i in start..s.len()
        invariant
            start <= s@.len(),
            d == s@.subrange(start as int, s@.len() as int),
            d == unsigned_part(s@),
            forall|k: int| 0 <= k < i - start ==> is_digit(#[trigger] d[k]),
            value == digits_value(d.take(i - start)),
    {
        let b = s[i];
        proof {
            assert(d[i - start] == b);
            assert(d.take(i - start + 1).drop_last() =~= d.take(i - start));
        }
        if !(48 <= b && b <= 57) {
            proof {
                assert(!is_digit(d[i - start]));
                assert(!(forall|k: int| 0 <= k < d.len() ==> is_digit(#[trigger] d[k])));
                assert(parse_digits(d) is None);
            }
            return None;
        }
        proof {
            assert(d.take(i - start + 1).last() == b);
            assert(digits_value(d.take(i - start + 1)) == value * 10 + (b - 48));
        }
        match value.checked_mul(10) {
            None => {
                proof {
                    if forall|k: int| 0 <= k < d.len() ==> is_digit(#[trigger] d[k]) {
                        lemma_digits_value_prefix(d, i - start + 1);
                        assert(digits_value(d) > usize::MAX);
                    }
                    assert(parse_digits(d) is None);
                }
                return None;
            },
            Some(tens) => match tens.checked_add((b - 48) as usize) {
                None => {
                    proof {
                        if forall|k: int| 0 <= k < d.len() ==> is_digit(#[trigger] d[k]) {
                            lemma_digits_value_prefix(d, i - start + 1);
                            assert(digits_value(d) > usize::MAX);
                        }
                        assert(parse_digits(d) is None);
                    }
                    return None;
                },
                Some(next) => {
                    value = next;
                },
            },
        }
    }
    proof {
        assert(d.take(d.len() as int) =~= d);
    }
    Some(value)
}

impl Grid<usize> {
    /// The grid that a text reads as, or `None` when some number in it does not parse or
    /// the width or the height line is missing. The rows are taken as they stand, whatever
    /// the width and the height say.
    pub fn from_text(text: &[u8]) -> (grid: Option<Grid<usize>>)
        ensures
            match parse_grid_text(text@) {
                None => grid is None,
                Some((w, h, values)) => grid matches Some(g) && g.width == w && g.height == h
                    && g.default_value == 0 && g.record_events && g.events@.len() == 0
                    && g.cell_values@.len() == values.len() && forall|i: int|
                    0 <= i < values.len() ==> (#[trigger] g.cell_values@[i])@.len() == values[i].len() && forall|
                        j: int,
                    |
                        0 <= j < values[i].len() ==> g.cell_values@[i]@[j] == #[trigger] values[i][j],
            },
    {
        let lines = split_bytes(text, NEWLINE);
        let ghost ls = views(lines@);
        if lines.len() < 2 {
            return None;
        }
        proof {
            assert(ls[0] == lines@[0]@ && ls[1] == lines@[1]@);
        }
        let width = match parse_number_bytes(lines[0].as_slice()) {
            Some(w) => w,
            None => {
                return None;
            },
        };
        let height = match parse_number_bytes(lines[1].as_slice()) {
            Some(h) => h,
            None => {
                return None;
            },
        };
        let mut values: Vec<Vec<usize>> = Vec::new();
        for i in 2..lines.len()
            invariant
                ls == views(lines@),
                ls == split(text@, NEWLINE),
                ls.len() >= 2,
                values@.len() == i - 2,
                forall|a: int, j: int|
                    2 <= a < i && 0 <= j < split(ls[a], TAB).len() ==> #[trigger] parse_number(split(ls[a], TAB)[j]) is Some,
                forall|a: int|
                    0 <= a < i - 2 ==> (#[trigger] values@[a])@.len() == split(ls[a + 2], TAB).len() && forall|j: int|
                        0 <= j < values@[a]@.len() ==> values@[a]@[j] == #[trigger] parse_number(split(ls[a + 2], TAB)[j])->0,
        {
            proof {
                assert(ls[i as int] == lines@[i as int]@);
            }
            let fields = split_bytes(lines[i].as_slice(), TAB);
            let ghost fs = views(fields@);
            let mut row: Vec<usize> = Vec::new();
            for j in 0..fields.len()
                invariant
                    fs == views(fields@),
                    fs == split(ls[i as int], TAB),
                    ls == split(text@, NEWLINE),
                    2 <= i < ls.len(),
                    row@.len() == j,
                    forall|k: int| 0 <= k < j ==> #[trigger] parse_number(fs[k]) is Some,
                    forall|k: int| 0 <= k < j ==> row@[k] == #[trigger] parse_number(fs[k])->0,
            {
                proof {
                    assert(fs[j as int] == fields@[j as int]@);
                }
                match parse_number_bytes(fields[j].as_slice()) {
                    Some(v) => {
                        row.push(v);
                    },
                    None => {
                        proof {
                            assert(!(parse_number(split(ls[i as int], TAB)[j as int]) is Some));
                        }
                        return None;
                    },
                }
            }
            values.push(row);
        }
        Some(
            Grid {
                width,
                height,
                default_value: 0,
                cell_values: values,
                events: Vec::new(),
                record_events: true,
            },
        )
    }
}

/// `s` holds no `b`.
pub open spec fn free_of(s: Seq<u8>, b: u8) -> bool {
    forall|i: int| 0 <= i < s.len() ==> #[trigger] s[i] != b
}

/// The digits of a number are digits, and they read back as the number.
pub proof fn lemma_decimal(n: nat)
    ensures
        decimal(n).len() >= 1,
        forall|i: int| 0 <= i < decimal(n).len() ==> is_digit(#[trigger] decimal(n)[i]),
        digits_value(decimal(n)) == n,
    decreases n,
{
    if n >= 10 {
        lemma_decimal(n / 10);
        let d = decimal(n);
        assert(d.drop_last() =~= decimal(n / 10));
        assert(forall|i: int| 0 <= i < d.len() - 1 ==> d[i] == decimal(n / 10)[i]);
        assert(d.last() == (48 + n % 10) as u8);
        assert(digits_value(d) == digits_value(d.drop_last()) * 10 + (d.last() - 48) as nat);
        assert(n == (n / 10) * 10 + n % 10);
    } else {
        let d = decimal(n);
        assert(d.drop_last() =~= Seq::<u8>::empty());
        assert(digits_value(d) == digits_value(d.drop_last()) * 10 + (d.last() - 48) as nat);
    }
}

/// The digits of a number that fits a `usize` parse back to it.
pub proof fn lemma_parse_decimal(n: nat)
    requires
        n <= usize::MAX,
    ensures
        parse_number(decimal(n)) == Some(n),
        free_of(decimal(n), NEWLINE),
        free_of(decimal(n), TAB),
{
    lemma_decimal(n);
    assert(is_digit(decimal(n)[0]));
    assert(unsigned_part(decimal(n)) == decimal(n));
    assert forall|i: int| 0 <= i < decimal(n).len() implies #[trigger] decimal(n)[i] != NEWLINE && decimal(n)[i]
        != TAB by {
        assert(is_digit(decimal(n)[i]));
    }
}

/// A string without the separator is a single piece.
proof fn lemma_split_free(y: Seq<u8>, sep: u8)
    requires
        free_of(y, sep),
    ensures
        split(y, sep) == seq![y],
    decreases y.len(),
{
    if y.len() > 0 {
        lemma_split_free(y.drop_last(), sep);
        assert(y.drop_last().push(y.last()) =~= y);
    } else {
        assert(y =~= Seq::<u8>::empty());
    }
}

/// Appending bytes without the separator extends the last piece.
proof fn lemma_split_append(x: Seq<u8>, y: Seq<u8>, sep: u8)
    requires
        free_of(y, sep),
    ensures
        split(x + y, sep) == split(x, sep).update(split(x, sep).len() - 1, split(x, sep).last() + y),
        split(x, sep).len() >= 1,
    decreases y.len(),
{
    lemma_split_len(x, sep);
    if y.len() == 0 {
        assert(x + y =~= x);
        assert(split(x, sep).last() + y =~= split(x, sep).last());
        assert(split(x, sep).update(split(x, sep).len() - 1, split(x, sep).last()) =~= split(x, sep));
    } else {
        let y0 = y.drop_last();
        lemma_split_append(x, y0, sep);
        assert((x + y).drop_last() =~= x + y0);
        assert((x + y).last() == y.last());
        assert(y.last() != sep);
        let p = split(x, sep);
        assert(split(x + y, sep) =~= p.update(p.len() - 1, p.last() + y)) by {
            assert((p.last() + y0).push(y.last()) =~= p.last() + y);
        }
    }
}

proof fn lemma_split_len(x: Seq<u8>, sep: u8)
    ensures
        split(x, sep).len() >= 1,
    decreases x.len(),
{
    if x.len() > 0 {
        lemma_split_len(x.drop_last(), sep);
    }
}

/// Splitting the joined pieces gives the pieces back, when no piece holds the separator.
pub proof fn lemma_split_join(parts: Seq<Seq<u8>>, sep: u8)
    requires
        parts.len() >= 1,
        forall|k: int| 0 <= k < parts.len() ==> free_of(#[trigger] parts[k], sep),
    ensures
        split(join(parts, sep), sep) == parts,
    decreases parts.len(),
{
    if parts.len() == 1 {
        lemma_split_free(parts[0], sep);
        assert(seq![parts[0]] =~= parts);
    } else {
        let init = parts.drop_last();
        lemma_split_join(init, sep);
        let x = join(init, sep).push(sep);
        assert(x.drop_last() =~= join(init, sep));
        assert(split(x, sep) == init.push(Seq::empty()));
        lemma_split_append(x, parts.last(), sep);
        assert(Seq::<u8>::empty() + parts.last() =~= parts.last());
        assert(init.push(Seq::empty()).update(init.len() as int, parts.last()) =~= parts);
    }
}

/// Joining a first piece in front of more pieces.
proof fn lemma_join_prepend(a: Seq<u8>, rest: Seq<Seq<u8>>, sep: u8)
    requires
        rest.len() >= 1,
    ensures
        join(seq![a] + rest, sep) == a.push(sep) + join(rest, sep),
    decreases rest.len(),
{
    let all = seq![a] + rest;
    assert(all.len() >= 2);
    assert(join(all, sep) == join(all.drop_last(), sep).push(sep) + all.last());
    if rest.len() == 1 {
        assert(all.drop_last() =~= seq![a]);
        assert(all.last() == rest[0]);
        assert(join(all.drop_last(), sep) == a);
        assert(join(rest, sep) == rest[0]);
        assert(join(all, sep) =~= a.push(sep) + join(rest, sep));
    } else {
        lemma_join_prepend(a, rest.drop_last(), sep);
        assert(all.drop_last() =~= seq![a] + rest.drop_last());
        assert(all.last() == rest.last());
        assert(join(rest, sep) == join(rest.drop_last(), sep).push(sep) + rest.last());
        assert(join(all, sep) =~= a.push(sep) + join(rest, sep));
    }
}

/// Joined pieces free of a byte other than the separator are free of it.
proof fn lemma_join_free(parts: Seq<Seq<u8>>, sep: u8, b: u8)
    requires
        sep != b,
        forall|k: int| 0 <= k < parts.len() ==> free_of(#[trigger] parts[k], b),
    ensures
        free_of(join(parts, sep), b),
    decreases parts.len(),
{
    if parts.len() > 1 {
        lemma_join_free(parts.drop_last(), sep, b);
        let j = join(parts, sep);
        let init = join(parts.drop_last(), sep).push(sep);
        assert forall|i: int| 0 <= i < j.len() implies #[trigger] j[i] != b by {
            if i < init.len() {
                assert(j[i] == init[i]);
            } else {
                assert(j[i] == parts.last()[i - init.len()]);
            }
        }
    }
}

/// Reading the text of a grid with at least one row and one column gives back its width, its
/// height and its cells.
pub proof fn law_text_round_trip(g: Grid<usize>)
    requires
        g.wf(),
        g.width >= 1,
        g.height >= 1,
    ensures
        parse_grid_text(grid_text(g.width as nat, g.height as nat, g.cells())) matches Some((w, h, values)) && w
            == g.width && h == g.height && values.len() == g.height && forall|y: int|
            0 <= y < g.height ==> (#[trigger] values[y]).len() == g.width && forall|x: int|
                0 <= x < g.width ==> #[trigger] values[y][x] == g.cell(x, y),
{
    let cells = g.cells();
    let texts = cells.map_values(|r: Seq<usize>| row_text(r));
    let dw = decimal(g.width as nat);
    let dh = decimal(g.height as nat);
    lemma_parse_decimal(g.width as nat);
    lemma_parse_decimal(g.height as nat);
    // Each row is its values in decimal, separated by tabs.
    assert forall|y: int| 0 <= y < g.height implies free_of(#[trigger] texts[y], NEWLINE) && split(texts[y], TAB)
        == cells[y].map_values(|v: usize| decimal(v as nat)) by {
        let ds = cells[y].map_values(|v: usize| decimal(v as nat));
        assert forall|k: int| 0 <= k < ds.len() implies free_of(#[trigger] ds[k], TAB) && free_of(ds[k], NEWLINE) by {
            lemma_parse_decimal(cells[y][k] as nat);
        }
        lemma_join_free(ds, TAB, NEWLINE);
        lemma_split_join(ds, TAB);
    }
    let parts = seq![dw, dh] + texts;
    assert forall|k: int| 0 <= k < parts.len() implies free_of(#[trigger] parts[k], NEWLINE) by {
        if k >= 2 {
            assert(parts[k] == texts[k - 2]);
        }
    }
    lemma_join_prepend(dh, texts, NEWLINE);
    lemma_join_prepend(dw, seq![dh] + texts, NEWLINE);
    assert(seq![dw] + (seq![dh] + texts) =~= parts);
    assert(grid_text(g.width as nat, g.height as nat, cells) =~= join(parts, NEWLINE));
    lemma_split_join(parts, NEWLINE);
    let lines = split(grid_text(g.width as nat, g.height as nat, cells), NEWLINE);
    assert(lines == parts);
    assert forall|i: int, j: int|
        2 <= i < lines.len() && 0 <= j < split(lines[i], TAB).len() implies #[trigger] parse_number(
        split(lines[i], TAB)[j],
    ) is Some by {
        assert(lines[i] == texts[i - 2]);
        lemma_parse_decimal(cells[i - 2][j] as nat);
    }
    let values = Seq::new(
        (lines.len() - 2) as nat,
        |i: int| split(lines[i + 2], TAB).map_values(|f: Seq<u8>| parse_number(f)->0),
    );
    assert forall|y: int| 0 <= y < g.height implies (#[trigger] values[y]).len() == g.width && forall|x: int|
        0 <= x < g.width ==> #[trigger] values[y][x] == g.cell(x, y) by {
        assert(lines[y + 2] == texts[y]);
        assert forall|x: int| 0 <= x < g.width implies #[trigger] values[y][x] == g.cell(x, y) by {
            lemma_parse_decimal(cells[y][x] as nat);
        }
    }
}

} // verus!
