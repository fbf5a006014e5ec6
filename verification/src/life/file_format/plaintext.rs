use vstd::prelude::*;

use crate::life::algo::basic::max_dim;
use crate::life::algo::quiet;
use crate::life::grid::{rows_wf, Rows};
use crate::life::transform::{lemma_upto_ends, lemma_upto_step, rows_upto};
use crate::life::{
    cell_of, dead_cell, lemma_cell_parts, lemma_counted_fill, packed, Cell, Life, LifeAlgoSelect, LifeOptions, Pos,
};
use crate::pattern::{Pattern, PatternMetadata};
use crate::text::{
    has_prefix, lemma_split_on_join, lemma_split_on_single, lines_of, push_char, push_chars, push_str, split_on, strip_cr,
    tail_from, starts_with, text_lines,
};

verus! {

/// A comment line: it begins with `!`.
pub open spec fn is_comment(l: Seq<char>) -> bool {
    l.len() > 0 && l[0] == '!'
}

/// The lines that are not comments, in order.
pub open spec fn body_lines(ls: Seq<Seq<char>>) -> Seq<Seq<char>>
    decreases ls.len(),
{
    if ls.len() == 0 {
        Seq::empty()
    } else {
        let r = body_lines(ls.drop_last());
        if is_comment(ls.last()) {
            r
        } else {
            r.push(ls.last())
        }
    }
}

/// The greatest length among `ls` (0 for none).
pub open spec fn max_len(ls: Seq<Seq<char>>) -> nat
    decreases ls.len(),
{
    if ls.len() == 0 {
        0
    } else {
        let m = max_len(ls.drop_last());
        if ls.last().len() > m {
            ls.last().len()
        } else {
            m
        }
    }
}

/// The characters of `l` other than spaces.
pub open spec fn no_spaces(l: Seq<char>) -> Seq<char>
    decreases l.len(),
{
    if l.len() == 0 {
        Seq::empty()
    } else {
        let r = no_spaces(l.drop_last());
        if l.last() == ' ' {
            r
        } else {
            r.push(l.last())
        }
    }
}

/// A character the plaintext format knows.
pub open spec fn plain_char_ok(c: char) -> bool {
    c == '.' || c == 'O' || c == 'B' || c == 'C' || c == '1' || c == '2' || c == ' '
}

/// The cell a plaintext character stands for: `O`, `B`, `C` are states 1 to 3 of faction
/// 0, `1` and `2` live cells of factions 1 and 2, `.` a dead cell.
pub open spec fn plain_cell(c: char) -> Cell {
    if c == 'O' {
        cell_of(packed(1, 0))
    } else if c == 'B' {
        cell_of(packed(2, 0))
    } else if c == 'C' {
        cell_of(packed(3, 0))
    } else if c == '1' {
        cell_of(packed(1, 1))
    } else if c == '2' {
        cell_of(packed(1, 2))
    } else {
        dead_cell()
    }
}

/// The row a plaintext line makes in a grid `w` wide (spaces are skipped).
pub open spec fn plain_row(l: Seq<char>, w: int) -> Seq<Cell> {
    let cs = no_spaces(l);
    Seq::new(
        w as nat,
        |x: int|
            if x < cs.len() {
                plain_cell(cs[x])
            } else {
                dead_cell()
            },
    )
}

/// The grid that a plaintext text describes: one row per line that is not a comment, as
/// wide as the longest such line.
pub open spec fn plaintext_rows(s: Seq<char>) -> Rows {
    let b = body_lines(text_lines(s));
    Seq::new(b.len(), |y: int| plain_row(b[y], max_len(b) as int))
}

/// Every line that is not a comment holds only characters the format knows, and the grid
/// fits the size limit.
pub open spec fn plaintext_ok(s: Seq<char>) -> bool {
    let b = body_lines(text_lines(s));
    &&& b.len() <= max_dim()
    &&& max_len(b) <= max_dim()
    &&& forall|y: int, i: int| 0 <= y < b.len() && 0 <= i < b[y].len() ==> plain_char_ok(#[trigger] b[y][i])
}

/// No line that is not a comment holds a cell of another faction than 0.
pub open spec fn plaintext_one_faction(s: Seq<char>) -> bool {
    let b = body_lines(text_lines(s));
    forall|y: int, i: int| 0 <= y < b.len() && 0 <= i < b[y].len() ==> #[trigger] b[y][i] != '1' && b[y][i] != '2'
}

proof fn lemma_no_spaces_len(l: Seq<char>)
    ensures
        no_spaces(l).len() <= l.len(),
        forall|i: int| 0 <= i < no_spaces(l).len() ==> (exists|j: int| 0 <= j < l.len() && #[trigger] no_spaces(l)[i] == l[j]),
    decreases l.len(),
{
    if l.len() > 0 {
        lemma_no_spaces_len(l.drop_last());
        let r = no_spaces(l.drop_last());
        assert forall|i: int| 0 <= i < no_spaces(l).len() implies (exists|j: int| 0 <= j < l.len() && #[trigger] no_spaces(l)[i] == l[j]) by {
            if i < r.len() {
                let j = choose|j: int| 0 <= j < l.drop_last().len() && r[i] == l.drop_last()[j];
                assert(l[j] == l.drop_last()[j]);
            } else {
                assert(no_spaces(l)[i] == l[l.len() - 1]);
            }
        }
    }
}

proof fn lemma_max_len(ls: Seq<Seq<char>>)
    ensures
        forall|k: int| 0 <= k < ls.len() ==> (#[trigger] ls[k]).len() <= max_len(ls),
    decreases ls.len(),
{
    if ls.len() > 0 {
        lemma_max_len(ls.drop_last());
        assert forall|k: int| 0 <= k < ls.len() implies (#[trigger] ls[k]).len() <= max_len(ls) by {
            if k < ls.len() - 1 {
                assert(ls[k] == ls.drop_last()[k]);
            }
        }
    }
}

/// The cell a plaintext character stands for.
fn plain_cell_exec(c: char) -> (r: Cell)
    ensures
        r == plain_cell(c),
{
    assert(packed(0, 0) == 0) by (bit_vector);
    if c == 'O' {
        Cell::new(1, 0)
    } else if c == 'B' {
        Cell::new(2, 0)
    } else if c == 'C' {
        Cell::new(3, 0)
    } else if c == '1' {
        Cell::new(1, 1)
    } else if c == '2' {
        Cell::new(1, 2)
    } else {
        Cell::new(0, 0)
    }
}

/// The cells of one row before `k` from `x` on are dead: the row is done.
proof fn lemma_upto_row_rest(full: Rows, w: int, h: int, y: int, k: int)
    requires
        rows_wf(full, w, h),
        0 <= y < h,
        0 <= k <= w,
        forall|x: int| k <= x < w ==> #[trigger] full[y][x] == dead_cell(),
    ensures
        rows_upto(full, w, h, y, k) == rows_upto(full, w, h, y + 1, 0),
{
    assert(rows_upto(full, w, h, y, k) =~~= rows_upto(full, w, h, y + 1, 0));
}

impl Life {
    /// The grid a plaintext text describes (<https://conwaylife.com/wiki/Plaintext>): lines
    /// that begin with `!` are comments; every other line is a row, where `.` is a dead
    /// cell, `O`, `B`, `C` states 1 to 3, `1` and `2` live cells of factions 1 and 2, and
    /// spaces are skipped.
    pub fn from_plaintext(value: &str, options: LifeOptions) -> (r: Life)
        requires
            plaintext_ok(value@),
            options.algo != LifeAlgoSelect::Sprase,
            options.algo == LifeAlgoSelect::Cached ==> quiet(options.rule) && plaintext_one_faction(value@),
        ensures
            r.wf(),
            r.kind() == options.algo,
            r.spec_rule() == options.rule,
            r.spec_generation() == 0,
            r.spec_size() == (Pos {
                x: max_len(body_lines(text_lines(value@))) as i16,
                y: body_lines(text_lines(value@)).len() as i16,
            }),
            r.rows() == plaintext_rows(value@),
            r.counted(),
    {
        let lines = lines_of(value);
        let ghost ls = text_lines(value@);
        let ghost b = body_lines(ls);
        let mut w: usize = 0;
        let mut h: usize = 0;
        let mut i: usize = 0;
        proof {
            assert(ls.take(0) =~= Seq::<Seq<char>>::empty());
        }
        while i < lines.len()
            invariant
                lines@.len() == ls.len(),
                forall|k: int| 0 <= k < lines@.len() ==> (#[trigger] lines@[k])@ == ls[k],
                i <= lines.len(),
                h == body_lines(ls.take(i as int)).len(),
                w == max_len(body_lines(ls.take(i as int))),
                b == body_lines(ls),
                plaintext_ok(value@),
                ls == text_lines(value@),
            decreases lines.len() - i,
        {
            proof {
                assert(ls.take(i + 1).drop_last() =~= ls.take(i as int));
                lemma_prefix_bounds(ls, i as int + 1);
                let r = body_lines(ls.take(i as int));
                assert(r.push(ls[i as int]).drop_last() =~= r);
            }
            let line = &lines[i];
            if !(line.len() > 0 && line[0] == '!') {
                h = h + 1;
                if line.len() > w {
                    w = line.len();
                }
            }
            i = i + 1;
        }
        proof {
            assert(ls.take(lines.len() as int) =~= ls);
        }
        let size = Pos { x: w as i16, y: h as i16 };
        let mut life = Life::new_ex(size, options);
        let ghost full = plaintext_rows(value@);
        let ghost gw = w as int;
        let ghost gh = h as int;
        proof {
            lemma_max_len(b);
            assert(rows_wf(full, gw, gh));
            lemma_upto_ends(full, gw, gh);
            life.lemma_fresh_counted(options.algo, size, options.rule);
        }
        let mut y: i16 = 0;
        let mut i: usize = 0;
        while i < lines.len()
            invariant
                lines@.len() == ls.len(),
                forall|k: int| 0 <= k < lines@.len() ==> (#[trigger] lines@[k])@ == ls[k],
                i <= lines.len(),
                y == body_lines(ls.take(i as int)).len(),
                b == body_lines(ls),
                ls == text_lines(value@),
                gw == w,
                gh == h,
                h == b.len(),
                w == max_len(b),
                w <= max_dim(),
                h <= max_dim(),
                size == (Pos { x: w as i16, y: h as i16 }),
                full == plaintext_rows(value@),
                rows_wf(full, gw, gh),
                forall|k: int| 0 <= k < b.len() ==> (#[trigger] b[k]).len() <= max_len(b),
                forall|yy: int| 0 <= yy < gh ==> #[trigger] rows_upto(full, gw, gh, yy, gw) == rows_upto(full, gw, gh, yy + 1, 0),
                plaintext_ok(value@),
                options.algo == LifeAlgoSelect::Cached ==> plaintext_one_faction(value@),
                life.wf(),
                life.kind() == options.algo,
                life.spec_size() == size,
                life.spec_rule() == options.rule,
                life.spec_generation() == 0,
                life.rows() == rows_upto(full, gw, gh, y as int, 0),
                life.counted(),
            decreases lines.len() - i,
        {
            proof {
                assert(ls.take(i + 1).drop_last() =~= ls.take(i as int));
                lemma_body_prefix(ls, i as int);
            }
            let line = &lines[i];
            if !(line.len() > 0 && line[0] == '!') {
                let ghost row = b[y as int];
                proof {
                    assert(row == ls[i as int]);
                    assert(no_spaces(row.take(0)) =~= Seq::<char>::empty());
                }
                let mut x: i16 = 0;
                let mut j: usize = 0;
                while j < line.len()
                    invariant
                        line@ == row,
                        0 <= y < gh,
                        row == b[y as int],
                        j <= line.len(),
                        x == no_spaces(row.take(j as int)).len(),
                        no_spaces(row.take(j as int)).len() <= j,
                        row.len() <= w,
                        gw == w,
                        gh == h,
                        h == b.len(),
                        w <= max_dim(),
                        h <= max_dim(),
                        size == (Pos { x: w as i16, y: h as i16 }),
                        full == plaintext_rows(value@),
                        b == body_lines(ls),
                        ls == text_lines(value@),
                        w == max_len(b),
                        rows_wf(full, gw, gh),
                        plaintext_ok(value@),
                        options.algo == LifeAlgoSelect::Cached ==> plaintext_one_faction(value@),
                        life.wf(),
                        life.kind() == options.algo,
                        life.spec_size() == size,
                        life.spec_rule() == options.rule,
                        life.spec_generation() == 0,
                        life.rows() == rows_upto(full, gw, gh, y as int, x as int),
                        life.counted(),
                    decreases line.len() - j,
                {
                    let ch = line[j];
                    proof {
                        assert(row.take(j + 1).drop_last() =~= row.take(j as int));
                        lemma_no_spaces_len(row.take(j + 1));
                        assert(plain_char_ok(b[y as int][j as int]));
                    }
                    if ch != ' ' {
                        proof {
                            assert(no_spaces(row.take(j + 1)) == no_spaces(row.take(j as int)).push(ch));
                            lemma_no_spaces_prefix(row, j as int + 1);
                            assert(full[y as int][x as int] == plain_cell(ch));
                            lemma_upto_step(full, gw, gh, y as int, x as int);
                        }
                        if ch != '.' {
                            let c = plain_cell_exec(ch);
                            proof {
                                lemma_plain_cell_faction(ch);
                                if options.algo == LifeAlgoSelect::Cached {
                                    assert(b[y as int][j as int] != '1' && b[y as int][j as int] != '2');
                                }
                            }
                            let ghost r0 = life.rows();
                            let ghost p0 = life.pops_view();
                            life.insert(Pos { x, y }, c);
                            proof {
                                lemma_counted_fill(r0, p0, y as int, x as int, c, life.pops_view());
                            }
                        }
                        x = x + 1;
                    }
                    j = j + 1;
                }
                proof {
                    assert(row.take(line.len() as int) =~= row);
                    assert forall|xx: int| x <= xx < gw implies #[trigger] full[y as int][xx] == dead_cell() by {}
                    lemma_upto_row_rest(full, gw, gh, y as int, x as int);
                }
                y = y + 1;
            }
            i = i + 1;
        }
        proof {
            assert(ls.take(lines.len() as int) =~= ls);
        }
        life
    }
}

/// The bounds of a prefix's body: it is no longer, and no wider, than the whole body.
proof fn lemma_prefix_bounds(ls: Seq<Seq<char>>, i: int)
    requires
        0 <= i <= ls.len(),
    ensures
        body_lines(ls.take(i)).len() <= body_lines(ls).len(),
        max_len(body_lines(ls.take(i))) <= max_len(body_lines(ls)),
    decreases ls.len() - i,
{
    if i < ls.len() {
        lemma_prefix_bounds(ls, i + 1);
        assert(ls.take(i + 1).drop_last() =~= ls.take(i));
        let r = body_lines(ls.take(i));
        assert(r.push(ls[i]).drop_last() =~= r);
    } else {
        assert(ls.take(i) =~= ls);
    }
}

/// The body of a prefix is a prefix of the body; the next line, if not a comment, is the
/// next body line.
proof fn lemma_body_prefix(ls: Seq<Seq<char>>, i: int)
    requires
        0 <= i < ls.len(),
    ensures
        body_lines(ls.take(i)).len() <= body_lines(ls).len(),
        !is_comment(ls[i]) ==> body_lines(ls.take(i)).len() < body_lines(ls).len() && body_lines(ls)[body_lines(
            ls.take(i),
        ).len() as int] == ls[i],
        forall|k: int| 0 <= k < body_lines(ls.take(i)).len() ==> #[trigger] body_lines(ls)[k] == body_lines(ls.take(i))[k],
    decreases ls.len() - i,
{
    assert(ls.take(i + 1).drop_last() =~= ls.take(i));
    if i + 1 < ls.len() {
        lemma_body_prefix(ls, i + 1);
    } else {
        assert(ls.take(i + 1) =~= ls);
    }
}

/// A prefix keeps the characters that are not spaces as a prefix.
proof fn lemma_no_spaces_prefix(l: Seq<char>, j: int)
    requires
        0 <= j <= l.len(),
    ensures
        no_spaces(l.take(j)).len() <= no_spaces(l).len(),
        forall|k: int| 0 <= k < no_spaces(l.take(j)).len() ==> #[trigger] no_spaces(l)[k] == no_spaces(l.take(j))[k],
    decreases l.len() - j,
{
    if j < l.len() {
        lemma_no_spaces_prefix(l, j + 1);
        assert(l.take(j + 1).drop_last() =~= l.take(j));
    } else {
        assert(l.take(j) =~= l);
    }
}

proof fn lemma_plain_cell_faction(c: char)
    ensures
        c != '1' && c != '2' ==> plain_cell(c).spec_faction() == 0,
{
    crate::life::lemma_dead_cell();
    crate::life::lemma_packed(1, 0);
    crate::life::lemma_packed(2, 0);
    crate::life::lemma_packed(3, 0);
}


/// A cell the plaintext format can write: any dead cell, states 1 to 3 of faction 0, or a
/// live cell of faction 1 or 2.
pub open spec fn plain_writable(c: Cell) -> bool {
    c.spec_state() == 0 || (c.spec_faction() == 0 && c.spec_state() <= 3) || (c.spec_state() == 1 && (
    c.spec_faction() == 1 || c.spec_faction() == 2))
}

/// The character the plaintext format writes for a cell.
pub open spec fn plain_char(c: Cell) -> char {
    if c.spec_state() == 0 {
        '.'
    } else if c.spec_faction() == 0 {
        if c.spec_state() == 1 {
            'O'
        } else if c.spec_state() == 2 {
            'B'
        } else {
            'C'
        }
    } else if c.spec_faction() == 1 {
        '1'
    } else {
        '2'
    }
}

/// The text of one row.
pub open spec fn row_text(row: Seq<Cell>) -> Seq<char> {
    row.map_values(|c: Cell| plain_char(c))
}

/// The text of the first `n` rows of a grid `w` wide: rows joined by line feeds (a grid
/// with no columns writes nothing).
pub open spec fn plaintext_text(rows: Rows, n: int, w: int) -> Seq<char>
    decreases n,
{
    if n <= 0 {
        Seq::empty()
    } else if n == 1 {
        row_text(rows[0])
    } else {
        plaintext_text(rows, n - 1, w) + (if w > 0 {
            seq!['\n']
        } else {
            Seq::empty()
        }) + row_text(rows[n - 1])
    }
}

/// Every cell of the grid can be written.
pub open spec fn rows_writable(rows: Rows) -> bool {
    forall|y: int, x: int| 0 <= y < rows.len() && 0 <= x < rows[y].len() ==> plain_writable(#[trigger] rows[y][x])
}

/// The character of a cell.
fn plain_char_exec(c: Cell) -> (r: char)
    requires
        plain_writable(c),
    ensures
        r == plain_char(c),
{
    let st = c.get_state();
    let f = c.get_faction();
    if st == 0 {
        '.'
    } else if f == 0 {
        if st == 1 {
            'O'
        } else if st == 2 {
            'B'
        } else {
            'C'
        }
    } else if f == 1 {
        '1'
    } else {
        '2'
    }
}

/// A character that `plain_char` writes.
spec fn written_char(c: char) -> bool {
    c == '.' || c == 'O' || c == 'B' || c == 'C' || c == '1' || c == '2'
}

proof fn lemma_row_text_chars(row: Seq<Cell>)
    ensures
        row_text(row).len() == row.len(),
        forall|i: int| 0 <= i < row.len() ==> written_char(#[trigger] row_text(row)[i]),
{
}

proof fn lemma_plaintext_split(rows: Rows, n: int, w: int)
    requires
        1 <= n <= rows.len(),
        w > 0,
    ensures
        split_on(plaintext_text(rows, n, w), '\n') == Seq::new(n as nat, |i: int| row_text(rows[i])),
    decreases n,
{
    lemma_row_text_chars(rows[n - 1]);
    let b = row_text(rows[n - 1]);
    assert forall|i: int| 0 <= i < b.len() implies b[i] != '\n' by {
        assert(written_char(b[i]));
    }
    if n == 1 {
        lemma_split_on_single(b, '\n');
        assert(seq![b] =~= Seq::new(1nat, |i: int| row_text(rows[i])));
    } else {
        lemma_plaintext_split(rows, n - 1, w);
        let prev = plaintext_text(rows, n - 1, w);
        assert(plaintext_text(rows, n, w) =~= prev.push('\n') + b);
        lemma_split_on_join(prev, b, '\n');
        assert(Seq::new((n - 1) as nat, |i: int| row_text(rows[i])).push(b) =~= Seq::new(n as nat, |i: int| row_text(rows[i])));
    }
}

proof fn lemma_body_all(ls: Seq<Seq<char>>)
    requires
        forall|k: int| 0 <= k < ls.len() ==> !is_comment(#[trigger] ls[k]),
    ensures
        body_lines(ls) == ls,
    decreases ls.len(),
{
    if ls.len() > 0 {
        assert forall|k: int| 0 <= k < ls.drop_last().len() implies !is_comment(#[trigger] ls.drop_last()[k]) by {
            assert(ls.drop_last()[k] == ls[k]);
        }
        lemma_body_all(ls.drop_last());
        assert(!is_comment(ls[ls.len() - 1]));
        assert(ls.drop_last().push(ls.last()) =~= ls);
    }
}

proof fn lemma_max_len_all(ls: Seq<Seq<char>>, w: nat)
    requires
        ls.len() > 0,
        forall|k: int| 0 <= k < ls.len() ==> (#[trigger] ls[k]).len() == w,
    ensures
        max_len(ls) == w,
    decreases ls.len(),
{
    if ls.len() > 1 {
        assert forall|k: int| 0 <= k < ls.drop_last().len() implies (#[trigger] ls.drop_last()[k]).len() == w by {
            assert(ls.drop_last()[k] == ls[k]);
        }
        lemma_max_len_all(ls.drop_last(), w);
        assert(ls.last() == ls[ls.len() - 1]);
    } else {
        assert(ls.drop_last().len() == 0);
        assert(max_len(ls.drop_last()) == 0);
        assert(ls.last() == ls[0]);
    }
}

proof fn lemma_no_spaces_none(l: Seq<char>)
    requires
        forall|i: int| 0 <= i < l.len() ==> l[i] != ' ',
    ensures
        no_spaces(l) == l,
    decreases l.len(),
{
    if l.len() > 0 {
        lemma_no_spaces_none(l.drop_last());
        assert(l.drop_last().push(l.last()) =~= l);
    }
}

proof fn lemma_plain_cell_char(c: Cell)
    requires
        plain_writable(c),
        c.spec_state() == 0 ==> c.spec_faction() == 0,
    ensures
        plain_cell(plain_char(c)) == c,
{
    lemma_cell_parts(c);
    crate::life::lemma_dead_cell();
    assert(packed(0, 0) == 0) by (bit_vector);
}

/// Reading back the plaintext that a grid writes gives the grid, for a grid at least one
/// cell wide and high whose cells can all be written and whose dead cells are of faction
/// 0 (a dead cell of another faction reads back as faction 0); within the size limit the
/// text is one the reader takes.
pub proof fn law_plaintext_round_trip(rows: Rows, w: int, h: int)
    requires
        rows_wf(rows, w, h),
        w > 0,
        h > 0,
        rows_writable(rows),
        forall|y: int, x: int|
            0 <= y < h && 0 <= x < w && (#[trigger] rows[y][x]).spec_state() == 0 ==> rows[y][x].spec_faction() == 0,
    ensures
        plaintext_rows(plaintext_text(rows, h, w)) == rows,
        w <= max_dim() && h <= max_dim() ==> plaintext_ok(plaintext_text(rows, h, w)),
{
    let text = plaintext_text(rows, h, w);
    let p = Seq::new(h as nat, |i: int| row_text(rows[i]));
    lemma_plaintext_split(rows, h, w);
    assert forall|k: int| 0 <= k < h implies #[trigger] p[k].len() == w && p[k].len() > 0 && p[k].last() != '\r' && !is_comment(p[k]) && (forall|i: int| 0 <= i < p[k].len() ==> written_char(#[trigger] p[k][i])) by {
        lemma_row_text_chars(rows[k]);
        assert(written_char(p[k][w - 1]));
        assert(written_char(p[k][0]));
    }
    let tl = text_lines(text);
    assert(p.last() == p[h - 1]);
    assert(tl =~= p) by {
        assert forall|k: int| 0 <= k < h implies #[trigger] tl[k] == p[k] by {
            if k < h - 1 {
                assert(strip_cr(p[k]) == p[k]);
            }
        }
    }
    lemma_body_all(p);
    lemma_max_len_all(p, w as nat);
    let got = plaintext_rows(text);
    assert forall|y: int| 0 <= y < h implies #[trigger] got[y] =~= rows[y] by {
        assert forall|i: int| 0 <= i < p[y].len() implies p[y][i] != ' ' by {
            assert(written_char(p[y][i]));
        }
        lemma_no_spaces_none(p[y]);
        assert forall|x: int| 0 <= x < w implies #[trigger] got[y][x] == rows[y][x] by {
            lemma_plain_cell_char(rows[y][x]);
        }
    }
    assert(got =~= rows);
    if w <= max_dim() && h <= max_dim() {
        assert forall|y: int, i: int| 0 <= y < p.len() && 0 <= i < p[y].len() implies plain_char_ok(#[trigger] p[y][i]) by {
            assert(written_char(p[y][i]));
        }
    }
}

impl Life {
    /// The grid as plaintext: one line per row, joined by line feeds, with no comment.
    #[verifier::spinoff_prover]
    pub fn to_plaintext(&self) -> (s: String)
        requires
            self.wf(),
            rows_writable(self.rows()),
        ensures
            s@ == plaintext_text(self.rows(), self.height(), self.width()),
    {
        let size = self.size();
        proof {
            self.lemma_wf();
        }
        let ghost rows = self.rows();
        let ghost w = size.x as int;
        let mut s = String::new();
        let mut y: i16 = 0;
        while y < size.y
            invariant
                self.wf(),
                rows == self.rows(),
                rows_writable(rows),
                size == self.spec_size(),
                w == size.x,
                rows_wf(rows, self.width(), self.height()),
                0 <= size.x,
                0 <= y <= size.y,
                s@ == plaintext_text(rows, y as int, w),
            decreases size.y - y,
        {
            let mut x: i16 = 0;
            while x < size.x
                invariant
                    self.wf(),
                    rows == self.rows(),
                    rows_writable(rows),
                    size == self.spec_size(),
                    w == size.x,
                    rows_wf(rows, self.width(), self.height()),
                    0 <= y < size.y,
                    0 <= x <= size.x,
                    s@ == plaintext_text(rows, y as int, w) + (if x > 0 {
                        (if y > 0 {
                            seq!['\n']
                        } else {
                            Seq::<char>::empty()
                        }) + row_text(rows[y as int]).take(x as int)
                    } else {
                        Seq::<char>::empty()
                    }),
                decreases size.x - x,
            {
                if x == 0 && y != 0 {
                    push_char(&mut s, '\n');
                }
                match self.get_cell(Pos { x, y }) {
                    Some(c) => {
                        let ch = plain_char_exec(*c);
                        push_char(&mut s, ch);
                    },
                    None => {},
                }
                proof {
                    let t = row_text(rows[y as int]);
                    assert(t.take(x + 1) =~= t.take(x as int).push(t[x as int]));
                    if x == 0 {
                        assert(t.take(0) =~= Seq::<char>::empty());
                    }
                }
                x = x + 1;
            }
            proof {
                let t = row_text(rows[y as int]);
                assert(t.take(size.x as int) =~= t);
                if size.x == 0 {
                    assert(t =~= Seq::<char>::empty());
                }
            }
            y = y + 1;
        }
        s
    }
}

/// The leading comment lines that name the pattern (`!Name: ...`, the last one wins) or
/// describe it (any other, the last one wins), given what was found before.
pub open spec fn header_name(ls: Seq<Seq<char>>, found: Option<Seq<char>>) -> Option<Seq<char>>
    decreases ls.len(),
{
    if ls.len() == 0 || !is_comment(ls[0]) {
        found
    } else {
        header_name(
            ls.drop_first(),
            if starts_with(ls[0], name_prefix()) {
                Some(ls[0].skip(7))
            } else {
                found
            },
        )
    }
}

/// The description given by the leading comment lines that are not names.
pub open spec fn header_description(ls: Seq<Seq<char>>, found: Option<Seq<char>>) -> Option<Seq<char>>
    decreases ls.len(),
{
    if ls.len() == 0 || !is_comment(ls[0]) {
        found
    } else {
        header_description(
            ls.drop_first(),
            if starts_with(ls[0], name_prefix()) {
                found
            } else {
                Some(ls[0].skip(1))
            },
        )
    }
}

pub open spec fn name_prefix() -> Seq<char> {
    seq!['!', 'N', 'a', 'm', 'e', ':', ' ']
}

/// The `!Name: ` line of a name, or nothing.
pub open spec fn name_header(o: Option<String>) -> Seq<char> {
    match o {
        Some(n) => name_prefix() + n@ + seq!['\n'],
        None => Seq::<char>::empty(),
    }
}

/// The `!` line of a description, or nothing.
pub open spec fn description_header(o: Option<String>) -> Seq<char> {
    match o {
        Some(d) => seq!['!'] + d@ + seq!['\n'],
        None => Seq::<char>::empty(),
    }
}

/// The text of an optional string.
pub open spec fn opt_view(o: Option<String>) -> Option<Seq<char>> {
    match o {
        Some(s) => Some(s@),
        None => None,
    }
}

impl Pattern {
    /// A pattern from plaintext: the grid as `Life::from_plaintext` reads it, and from the
    /// leading comment lines a name (`!Name: ...`) and a description (any other comment).
    pub fn from_plaintext(value: &str, options: LifeOptions) -> (p: Pattern)
        requires
            plaintext_ok(value@),
            options.algo != LifeAlgoSelect::Sprase,
            options.algo == LifeAlgoSelect::Cached ==> quiet(options.rule) && plaintext_one_faction(value@),
        ensures
            p.life.wf(),
            p.life.kind() == options.algo,
            p.life.spec_rule() == options.rule,
            p.life.spec_generation() == 0,
            p.life.rows() == plaintext_rows(value@),
            p.life.counted(),
            opt_view(p.metadata.name) == header_name(text_lines(value@), None),
            opt_view(p.metadata.description) == header_description(text_lines(value@), None),
            p.metadata.classification is None,
            p.metadata.period_or_pop_or_lifespan is None,
    {
        let mut metadata = PatternMetadata::default();
        let lines = lines_of(value);
        let ghost ls = text_lines(value@);
        let prefix_str = "!Name: ";
        proof {
            reveal_strlit("!Name: ");
        }
        let prefix = crate::text::chars_of(prefix_str);
        assert(prefix@ =~= name_prefix());
        let mut i: usize = 0;
        proof {
            assert(ls.skip(0) =~= ls);
        }
        while i < lines.len()
            invariant
                lines@.len() == ls.len(),
                forall|k: int| 0 <= k < lines@.len() ==> (#[trigger] lines@[k])@ == ls[k],
                prefix@ == name_prefix(),
                i <= lines.len(),
                header_name(ls, None) == header_name(ls.skip(i as int), opt_view(metadata.name)),
                header_description(ls, None) == header_description(ls.skip(i as int), opt_view(metadata.description)),
                metadata.classification is None,
                metadata.period_or_pop_or_lifespan is None,
            ensures
                header_name(ls, None) == opt_view(metadata.name),
                header_description(ls, None) == opt_view(metadata.description),
                metadata.classification is None,
                metadata.period_or_pop_or_lifespan is None,
            decreases lines.len() - i,
        {
            let line = &lines[i];
            proof {
                assert(ls.skip(i as int)[0] == ls[i as int]);
                assert(ls.skip(i as int).drop_first() =~= ls.skip(i + 1));
            }
            if line.len() > 0 && line[0] == '!' {
                if has_prefix(line, &prefix) {
                    let rest = tail_from(line, 7);
                    metadata.name = Some(crate::text::string_of(&rest));
                } else {
                    let rest = tail_from(line, 1);
                    metadata.description = Some(crate::text::string_of(&rest));
                }
            } else {
                proof {
                    assert(ls.skip(i as int).len() > 0);
                }
                break;
            }
            i = i + 1;
            proof {
                if i == lines.len() {
                    assert(ls.skip(i as int) =~= Seq::<Seq<char>>::empty());
                }
            }
        }
        let life = Life::from_plaintext(value, options);
        Pattern { life, metadata }
    }

    /// The pattern as plaintext: a `!Name: ` line for the name, a `!` line for the
    /// description, then the grid.
    pub fn to_plaintext(&self) -> (s: String)
        requires
            self.life.wf(),
            rows_writable(self.life.rows()),
        ensures
            s@ == name_header(self.metadata.name) + description_header(self.metadata.description)
                + plaintext_text(self.life.rows(), self.life.height(), self.life.width()),
    {
        let mut s = String::new();
        let ghost n0: Seq<char> = name_header(self.metadata.name);
        match &self.metadata.name {
            Some(name) => {
                proof {
                    reveal_strlit("!Name: ");
                }
                push_str(&mut s, "!Name: ");
                push_str(&mut s, name.as_str());
                push_char(&mut s, '\n');
            },
            None => {},
        }
        assert(s@ =~= n0);
        let ghost d0: Seq<char> = description_header(self.metadata.description);
        match &self.metadata.description {
            Some(d) => {
                push_char(&mut s, '!');
                push_str(&mut s, d.as_str());
                push_char(&mut s, '\n');
            },
            None => {},
        }
        assert(s@ =~= n0 + d0);
        let body = self.life.to_plaintext();
        push_str(&mut s, body.as_str());
        s
    }
}


/// Whether the plaintext reader takes `text`, and whether it holds only cells of faction 0:
/// `Life::from_plaintext` may be called on it exactly when the first holds (and, on a cached
/// grid, the second).
pub fn plaintext_readable(text: &str) -> (r: (bool, bool))
    ensures
        r.0 == plaintext_ok(text@),
        r.1 == plaintext_one_faction(text@),
{
    let lines = lines_of(text);
    let ghost tl = text_lines(text@);
    proof {
        assert(tl.take(0) =~= Seq::<Seq<char>>::empty());
    }
    let mut n: usize = 0;
    let mut longest: usize = 0;
    let mut chars_ok = true;
    let mut one = true;
    let mut i: usize = 0;
    while i < lines.len()
        invariant
            i <= lines.len(),
            lines@.len() == tl.len(),
            forall|k: int| 0 <= k < lines@.len() ==> (#[trigger] lines@[k])@ == tl[k],
            n == body_lines(tl.take(i as int)).len(),
            n <= i,
            longest == max_len(body_lines(tl.take(i as int))),
            longest <= usize::MAX,
            chars_ok == (forall|y: int, c: int|
                0 <= y < body_lines(tl.take(i as int)).len() && 0 <= c < body_lines(tl.take(i as int))[y].len()
                    ==> plain_char_ok(#[trigger] body_lines(tl.take(i as int))[y][c])),
            one == (forall|y: int, c: int|
                0 <= y < body_lines(tl.take(i as int)).len() && 0 <= c < body_lines(tl.take(i as int))[y].len()
                    ==> #[trigger] body_lines(tl.take(i as int))[y][c] != '1' && body_lines(tl.take(i as int))[y][c]
                    != '2'),
        decreases lines.len() - i,
    {
        let line = &lines[i];
        let ghost prev = body_lines(tl.take(i as int));
        proof {
            assert(line@ == tl[i as int]);
            assert(tl.take(i + 1).drop_last() =~= tl.take(i as int));
            assert(tl.take(i + 1).last() == tl[i as int]);
        }
        if line.len() > 0 && line[0] == '!' {
            proof {
                assert(is_comment(line@));
                assert(body_lines(tl.take(i + 1)) == prev);
            }
        } else {
            let ghost next = prev.push(line@);
            assert(body_lines(tl.take(i + 1)) == next);
            let mut lok = true;
            let mut lone = true;
            let mut j: usize = 0;
            while j < line.len()
                invariant
                    j <= line.len(),
                    lok == (forall|c: int| 0 <= c < j ==> plain_char_ok(#[trigger] line@[c])),
                    lone == (forall|c: int| 0 <= c < j ==> #[trigger] line@[c] != '1' && line@[c] != '2'),
                decreases line.len() - j,
            {
                let c = line[j];
                if !(c == '.' || c == 'O' || c == 'B' || c == 'C' || c == '1' || c == '2' || c == ' ') {
                    lok = false;
                }
                if c == '1' || c == '2' {
                    lone = false;
                }
                j = j + 1;
            }
            proof {
                assert(next[prev.len() as int] == line@);
                assert forall|y: int, c: int| 0 <= y < prev.len() && 0 <= c < prev[y].len() implies next[y][c]
                    == prev[y][c] by {
                    assert(next[y] == prev[y]);
                }
                if !lok {
                    let c = choose|c: int| 0 <= c < line.len() && !plain_char_ok(#[trigger] line@[c]);
                    assert(!plain_char_ok(next[prev.len() as int][c]));
                }
                if !lone {
                    let c = choose|c: int| 0 <= c < line.len() && !(#[trigger] line@[c] != '1' && line@[c] != '2');
                    assert(!(next[prev.len() as int][c] != '1' && next[prev.len() as int][c] != '2'));
                }
                if chars_ok && lok {
                    assert forall|y: int, c: int| 0 <= y < next.len() && 0 <= c < next[y].len() implies plain_char_ok(
                        #[trigger] next[y][c],
                    ) by {
                        if y < prev.len() {
                            assert(next[y][c] == prev[y][c]);
                        } else {
                            assert(next[y][c] == line@[c]);
                        }
                    }
                }
                if one && lone {
                    assert forall|y: int, c: int| 0 <= y < next.len() && 0 <= c < next[y].len() implies #[trigger] next[y][c]
                        != '1' && next[y][c] != '2' by {
                        if y < prev.len() {
                            assert(next[y][c] == prev[y][c]);
                        } else {
                            assert(next[y][c] == line@[c]);
                        }
                    }
                }
                if !chars_ok {
                    let (y, c) = choose|y: int, c: int|
                        0 <= y < prev.len() && 0 <= c < prev[y].len() && !plain_char_ok(#[trigger] prev[y][c]);
                    assert(next[y][c] == prev[y][c]);
                }
                if !one {
                    let (y, c) = choose|y: int, c: int|
                        0 <= y < prev.len() && 0 <= c < prev[y].len() && !(#[trigger] prev[y][c] != '1' && prev[y][c] != '2');
                    assert(next[y][c] == prev[y][c]);
                }
                assert(next.drop_last() =~= prev);
            }
            chars_ok = chars_ok && lok;
            one = one && lone;
            if line.len() > longest {
                longest = line.len();
            }
            n = n + 1;
        }
        i = i + 1;
    }
    proof {
        assert(tl.take(lines.len() as int) =~= tl);
    }
    (n <= 32765 && longest <= 32765 && chars_ok, one)
}

} // verus!
