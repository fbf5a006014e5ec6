use vstd::prelude::*;

use crate::life::algo::basic::max_dim;
use crate::life::rule::{rule_lut, slash_count, states_portion_supported};
use crate::life::LifeRule;
use crate::life::algo::dead_rows;
use crate::life::file_format::plaintext::opt_view;
use crate::life::file_format::rle::{
    c_prefix, cell_tag, field_ok, field_sep, first_plain, is_hash_line, n_prefix, rle_fields, rle_height, rle_ok, rle_rule_lut, rle_width, rule_word, value_sep, rle_description, rle_name, rle_body_text, rle_head, grid_tags, is_fill_tag, item_write, rle_body, rle_char, rle_char_valid, rle_line, rle_line_valid,
    row_tags, rows_taggable, tag_cell, writer_flush, writer_push, writer_run, RleState, WriterState,
};
use crate::text::{decimal, dec_value, digit_value, is_digit, lemma_decimal_bound, lemma_decimal_digits, ten_pow, lemma_split_on_extend, lemma_split_on_join, lemma_split_on_len, occurs_at, parse_i16, split_on, split_once, split_scan, split_str, find_from, all_digits, starts_with};
use crate::life::grid::{rows_wf, Rows};
use crate::life::{apply_writes, dead_cell, lemma_apply_concat, write_step, zero_pops, Cell, Pos};

verus! {

/// The cell the RLE reader makes of a cell the writer wrote: a dead cell, or the cell of
/// its tag (faction 0).
pub open spec fn read_cell(generations: bool, c: Cell) -> Cell {
    if c.spec_state() == 0 {
        dead_cell()
    } else {
        tag_cell(cell_tag(generations, c))
    }
}

/// The grid the RLE reader makes of a grid the writer wrote.
pub open spec fn read_rows(generations: bool, rows: Rows) -> Rows {
    rows.map_values(|row: Seq<Cell>| row.map_values(|c: Cell| read_cell(generations, c)))
}

/// Reading tags one at a time from position `p`: a fill tag writes its cell and moves
/// right, `$` goes to the start of the next row, any other tag moves right.
pub open spec fn tag_step(p: (int, int), t: char) -> ((int, int), Seq<(Pos, Cell)>) {
    if t == '$' {
        ((0, p.1 + 1), Seq::empty())
    } else if is_fill_tag(t) {
        ((p.0 + 1, p.1), seq![(Pos { x: p.0 as i16, y: p.1 as i16 }, tag_cell(t))])
    } else {
        ((p.0 + 1, p.1), Seq::empty())
    }
}

/// Reading the tags `ts` one at a time from `p`: the position reached and the writes.
pub open spec fn tag_read(p: (int, int), ts: Seq<char>) -> ((int, int), Seq<(Pos, Cell)>)
    decreases ts.len(),
{
    if ts.len() == 0 {
        (p, Seq::empty())
    } else {
        let a = tag_read(p, ts.drop_last());
        let b = tag_step(a.0, ts.last());
        (b.0, a.1 + b.1)
    }
}

proof fn lemma_tag_read_concat(p: (int, int), a: Seq<char>, b: Seq<char>)
    ensures
        tag_read(p, a + b) == (tag_read(tag_read(p, a).0, b).0, tag_read(p, a).1 + tag_read(tag_read(p, a).0, b).1),
    decreases b.len(),
{
    if b.len() == 0 {
        assert(a + b =~= a);
        assert(tag_read(p, a).1 + Seq::<(Pos, Cell)>::empty() =~= tag_read(p, a).1);
    } else {
        lemma_tag_read_concat(p, a, b.drop_last());
        assert((a + b).drop_last() =~= a + b.drop_last());
        let q = tag_read(p, a).0;
        let x = tag_read(q, b.drop_last());
        let st = tag_step(x.0, b.last());
        assert(tag_read(p, a).1 + x.1 + st.1 =~= tag_read(p, a).1 + (x.1 + st.1));
    }
}

/// The writes of the first `n` cells of a row read at row `y`.
pub open spec fn row_writes(generations: bool, row: Seq<Cell>, y: int, n: int) -> Seq<(Pos, Cell)>
    decreases n,
{
    if n <= 0 {
        Seq::empty()
    } else if row[n - 1].spec_state() != 0 {
        row_writes(generations, row, y, n - 1).push((Pos { x: (n - 1) as i16, y: y as i16 }, read_cell(generations, row[n - 1])))
    } else {
        row_writes(generations, row, y, n - 1)
    }
}

proof fn lemma_row_read(generations: bool, row: Seq<Cell>, y: int, n: int)
    requires
        0 <= n <= row.len(),
        forall|x: int| 0 <= x < row.len() ==> (#[trigger] row[x]).spec_state() <= (if generations {
            3int
        } else {
            1int
        }),
    ensures
        tag_read((0, y), row_tags(generations, row).take(n)) == ((n, y), row_writes(generations, row, y, n)),
    decreases n,
{
    if n > 0 {
        lemma_row_read(generations, row, y, n - 1);
        let ts = row_tags(generations, row);
        assert(ts.take(n).drop_last() =~= ts.take(n - 1));
        let c = row[n - 1];
        let t = cell_tag(generations, c);
        assert(ts.take(n).last() == t);
        if c.spec_state() == 0 {
            assert(t == 'b' || t == '.');
            assert(tag_read((0, y), ts.take(n)).1 =~= row_writes(generations, row, y, n - 1));
        } else {
            assert(is_fill_tag(t));
            assert(tag_read((0, y), ts.take(n)).1 =~= row_writes(generations, row, y, n));
        }
    }
}

/// Writing a row's cells, left to right, into a grid whose row is dead.
proof fn lemma_apply_row(generations: bool, g: Rows, p: Seq<i16>, row: Seq<Cell>, y: int, n: int, w: int, h: int)
    requires
        rows_wf(g, w, h),
        0 <= y < h,
        h <= 32767,
        w <= 32767,
        row.len() == w,
        0 <= n <= w,
        g[y] == Seq::new(w as nat, |x: int| dead_cell()),
    ensures
        apply_writes((g, p), row_writes(generations, row, y, n)).0 == g.update(
            y,
            Seq::new(w as nat, |x: int| if x < n { read_cell(generations, row[x]) } else { dead_cell() }),
        ),
    decreases n,
{
    if n > 0 {
        lemma_apply_row(generations, g, p, row, y, n - 1, w, h);
        let prev = apply_writes((g, p), row_writes(generations, row, y, n - 1));
        let target = g.update(y, Seq::new(w as nat, |x: int| if x < n { read_cell(generations, row[x]) } else { dead_cell() }));
        if row[n - 1].spec_state() != 0 {
            let wr = (Pos { x: (n - 1) as i16, y: y as i16 }, read_cell(generations, row[n - 1]));
            assert(row_writes(generations, row, y, n) == row_writes(generations, row, y, n - 1).push(wr));
            assert(row_writes(generations, row, y, n).drop_last() =~= row_writes(generations, row, y, n - 1));
            assert(apply_writes((g, p), row_writes(generations, row, y, n)).0 == write_step(prev, wr).0);
            assert(write_step(prev, wr).0 =~~= target);
        } else {
            crate::life::lemma_dead_cell();
            assert(prev.0 =~~= target);
        }
    } else {
        assert(g.update(y, Seq::new(w as nat, |x: int| if x < n { read_cell(generations, row[x]) } else { dead_cell() }))
            =~~= g);
    }
}

/// The rows of a grid read so far: the first `n` rows read, the rest dead.
pub open spec fn rows_read_upto(generations: bool, rows: Rows, w: int, h: int, n: int) -> Rows {
    Seq::new(
        h as nat,
        |y: int|
            if y < n {
                Seq::new(w as nat, |x: int| read_cell(generations, rows[y][x]))
            } else {
                Seq::new(w as nat, |x: int| dead_cell())
            },
    )
}

proof fn lemma_grid_read(generations: bool, rows: Rows, p: Seq<i16>, w: int, h: int, n: int)
    requires
        rows_wf(rows, w, h),
        w > 0,
        1 <= n <= h,
        h <= 32767,
        w <= 32767,
        rows_taggable(generations, rows),
    ensures
        tag_read((0, 0), grid_tags(generations, rows, n, w)).0 == (w, n - 1),
        apply_writes((dead_rows(w, h), p), tag_read((0, 0), grid_tags(generations, rows, n, w)).1).0 == rows_read_upto(
            generations,
            rows,
            w,
            h,
            n,
        ),
    decreases n,
{
    let row = rows[n - 1];
    assert forall|x: int| 0 <= x < row.len() implies (#[trigger] row[x]).spec_state() <= (if generations {
        3int
    } else {
        1int
    }) by {
        assert(rows[n - 1][x] == row[x]);
    }
    lemma_row_read(generations, row, n - 1, w);
    let rt = row_tags(generations, row);
    assert(rt.take(w) =~= rt);
    let gt = grid_tags(generations, rows, n, w);
    if n == 1 {
        assert(grid_tags(generations, rows, 0, w) == Seq::<char>::empty());
        assert(gt =~= rt);
        lemma_tag_read_concat((0, 0), Seq::<char>::empty(), rt);
        assert(Seq::<char>::empty() + rt =~= rt);
        let g = dead_rows(w, h);
        assert(g[0] =~= Seq::new(w as nat, |x: int| dead_cell()));
        lemma_apply_row(generations, g, p, row, 0, w, w, h);
        assert(g.update(0, Seq::new(w as nat, |x: int| if x < w { read_cell(generations, row[x]) } else { dead_cell() }))
            =~~= rows_read_upto(generations, rows, w, h, 1));
    } else {
        lemma_grid_read(generations, rows, p, w, h, n - 1);
        let prev = grid_tags(generations, rows, n - 1, w);
        assert(gt == prev + seq!['$'] + rt);
        lemma_tag_read_concat((0, 0), prev + seq!['$'], rt);
        lemma_tag_read_concat((0, 0), prev, seq!['$']);
        let a = tag_read((0, 0), prev);
        assert(tag_read(a.0, seq!['$']) == ((0int, n - 1), Seq::<(Pos, Cell)>::empty())) by {
            assert(seq!['$'].drop_last() =~= Seq::<char>::empty());
            assert(tag_read(a.0, Seq::<char>::empty()) == (a.0, Seq::<(Pos, Cell)>::empty()));
            assert(Seq::<(Pos, Cell)>::empty() + Seq::<(Pos, Cell)>::empty() =~= Seq::<(Pos, Cell)>::empty());
        }
        let ws = tag_read((0, 0), gt).1;
        assert(ws =~= a.1 + row_writes(generations, row, n - 1, w));
        let st0 = (dead_rows(w, h), p);
        lemma_apply_concat(st0, a.1, row_writes(generations, row, n - 1, w));
        let mid = apply_writes(st0, a.1);
        let g = rows_read_upto(generations, rows, w, h, n - 1);
        assert(mid.0 == g);
        assert(g[n - 1] =~= Seq::new(w as nat, |x: int| dead_cell()));
        lemma_apply_row(generations, g, mid.1, row, n - 1, w, w, h);
        assert(g.update(n - 1, Seq::new(w as nat, |x: int| if x < w { read_cell(generations, row[x]) } else { dead_cell() }))
            =~~= rows_read_upto(generations, rows, w, h, n));
    }
}

proof fn lemma_line_concat(st: RleState, a: Seq<char>, b: Seq<char>)
    ensures
        rle_line(st, a + b) == (
            rle_line(rle_line(st, a).0, b).0,
            rle_line(st, a).1 + rle_line(rle_line(st, a).0, b).1,
        ),
        rle_line_valid(st, a + b) == (rle_line_valid(st, a) && rle_line_valid(rle_line(st, a).0, b)),
    decreases b.len(),
{
    if b.len() == 0 {
        assert(a + b =~= a);
        assert(rle_line(st, a).1 + Seq::<(Pos, Cell)>::empty() =~= rle_line(st, a).1);
    } else {
        lemma_line_concat(st, a, b.drop_last());
        assert((a + b).drop_last() =~= a + b.drop_last());
        assert((a + b).last() == b.last());
        let m = rle_line(st, a).0;
        let x = rle_line(m, b.drop_last());
        let c = rle_char(x.0, b.last());
        assert(rle_line(st, a).1 + x.1 + c.1 =~= rle_line(st, a).1 + (x.1 + c.1));
    }
}

/// Reading the digits of a number from a state with no run pending sets the run to it.
proof fn lemma_read_digits(x: int, y: int, d: Seq<char>, bound: nat)
    requires
        forall|i: int| 0 <= i < d.len() ==> is_digit(#[trigger] d[i]),
        dec_value(d) <= bound,
        bound <= u32::MAX,
    ensures
        rle_line((x, y, 0, false), d) == ((x, y, dec_value(d) as int, false), Seq::<(Pos, Cell)>::empty()),
        rle_line_valid((x, y, 0, false), d),
    decreases d.len(),
{
    if d.len() > 0 {
        let p = d.drop_last();
        assert forall|i: int| 0 <= i < p.len() implies is_digit(#[trigger] p[i]) by {
            assert(p[i] == d[i]);
        }
        assert(dec_value(p) <= dec_value(d));
        lemma_read_digits(x, y, p, bound);
        assert(is_digit(d[d.len() - 1]));
        assert(Seq::<(Pos, Cell)>::empty() + Seq::<(Pos, Cell)>::empty() =~= Seq::<(Pos, Cell)>::empty());
    }
}

/// The cells that a run of `c` fill tags `t` writes from `(x, y)`.
pub open spec fn fill_writes(x: int, y: int, c: int, t: char) -> Seq<(Pos, Cell)> {
    Seq::new(c as nat, |k: int| (Pos { x: (x + k) as i16, y: y as i16 }, tag_cell(t)))
}

/// The text of one run: the count when above one, then the tag.
pub open spec fn run_text(c: int, t: char) -> Seq<char> {
    (if c > 1 {
        decimal(c as nat)
    } else {
        Seq::<char>::empty()
    }) + seq![t]
}

/// What reading a run of `c` tags `t` does from `(x, y)`: the state reached and the writes.
pub open spec fn run_effect(x: int, y: int, c: int, t: char) -> (RleState, Seq<(Pos, Cell)>) {
    if t == '$' {
        ((0, y + c, 0, false), Seq::empty())
    } else if is_fill_tag(t) {
        ((x + c, y, 0, false), fill_writes(x, y, c, t))
    } else {
        ((x + c, y, 0, false), Seq::empty())
    }
}

/// A run the reader takes from `(x, y)`: within the coordinate range.
pub open spec fn run_fits(x: int, y: int, c: int, t: char) -> bool {
    &&& 1 <= c <= 32767
    &&& 0 <= x
    &&& 0 <= y
    &&& (t == 'b' || t == '.' || is_fill_tag(t) || t == '$')
    &&& t == '$' ==> y + c <= 32767
    &&& t != '$' ==> x + c <= 32767
}

proof fn lemma_read_run(x: int, y: int, c: int, t: char)
    requires
        run_fits(x, y, c, t),
    ensures
        rle_line((x, y, 0, false), run_text(c, t)) == run_effect(x, y, c, t),
        rle_line_valid((x, y, 0, false), run_text(c, t)),
{
    let pre = if c > 1 {
        decimal(c as nat)
    } else {
        Seq::<char>::empty()
    };
    lemma_decimal_digits(c as nat);
    lemma_read_digits(x, y, pre, 32767);
    lemma_line_concat((x, y, 0, false), pre, seq![t]);
    let st1 = (x, y, if c > 1 { c } else { 0 }, false);
    assert(rle_line((x, y, 0, false), pre).0 == st1);
    assert(seq![t].drop_last() =~= Seq::<char>::empty());
    assert(rle_line(st1, Seq::<char>::empty()) == (st1, Seq::<(Pos, Cell)>::empty()));
    assert(rle_line_valid(st1, Seq::<char>::empty()));
    assert(rle_line(st1, seq![t]) == (rle_char(st1, t).0, Seq::<(Pos, Cell)>::empty() + rle_char(st1, t).1));
    assert(rle_char_valid(st1, t));
    assert(rle_line_valid(st1, seq![t]));
    assert(Seq::<(Pos, Cell)>::empty() + rle_char(st1, t).1 =~= rle_char(st1, t).1);
    if is_fill_tag(t) {
        assert(rle_char(st1, t).1 =~= fill_writes(x, y, c, t));
    }
    assert(rle_line((x, y, 0, false), pre).1 + rle_char(st1, t).1 =~= rle_char(st1, t).1);
}

/// What the reader makes of a whole text: its state at the end, its writes, and
/// whether every line was read within range.
pub open spec fn text_read(s: Seq<char>) -> (RleState, Seq<(Pos, Cell)>, bool) {
    let ls = split_on(s, '\n');
    let b = rle_body((0, 0), ls.drop_last());
    let st0: RleState = (b.0.0, b.0.1, 0, false);
    let r = rle_line(st0, ls.last());
    (r.0, b.1 + r.1, b.2 && rle_line_valid(st0, ls.last()))
}

proof fn lemma_text_body(s: Seq<char>)
    ensures
        rle_body((0, 0), split_on(s, '\n')) == (
            (text_read(s).0.0, text_read(s).0.1),
            text_read(s).1,
            text_read(s).2,
        ),
{
    lemma_split_on_len(s, '\n');
    let ls = split_on(s, '\n');
    assert(ls.drop_last() == split_on(s, '\n').drop_last());
}

/// Reading a text and then more characters, on the same line or after a line feed, when
/// the text ends with no run pending.
proof fn lemma_text_append(s: Seq<char>, core: Seq<char>, newline: bool)
    requires
        forall|i: int| 0 <= i < core.len() ==> #[trigger] core[i] != '\n',
        text_read(s).0.2 == 0,
        !text_read(s).0.3,
    ensures
        ({
            let s2 = if newline {
                s.push('\n') + core
            } else {
                s + core
            };
            let e = text_read(s).0;
            let r = rle_line(e, core);
            text_read(s2) == (r.0, text_read(s).1 + r.1, text_read(s).2 && rle_line_valid(e, core))
        }),
{
    lemma_split_on_len(s, '\n');
    let ls = split_on(s, '\n');
    let b = rle_body((0, 0), ls.drop_last());
    let st0: RleState = (b.0.0, b.0.1, 0, false);
    let e = text_read(s).0;
    let r = rle_line(e, core);
    if newline {
        lemma_split_on_join(s, core, '\n');
        let ls2 = split_on(s.push('\n') + core, '\n');
        assert(ls2 == ls.push(core));
        assert(ls2.drop_last() =~= ls);
        lemma_text_body(s);
        assert(rle_body((0, 0), ls) == ((e.0, e.1), text_read(s).1, text_read(s).2));
        assert((e.0, e.1, 0int, false) == e);
    } else {
        lemma_split_on_extend(s, core, '\n');
        let ls2 = split_on(s + core, '\n');
        assert(ls2.drop_last() =~= ls.drop_last());
        assert(ls2.last() == ls.last() + core);
        lemma_line_concat(st0, ls.last(), core);
        assert(b.1 + rle_line(st0, ls.last()).1 + r.1 =~= b.1 + (rle_line(st0, ls.last()).1 + r.1));
    }
}


/// The tag of a dead cell.
pub open spec fn dead_tag(generations: bool) -> char {
    if generations {
        '.'
    } else {
        'b'
    }
}

/// A tag the writer is given: `$`, the dead tag, or a tag that writes cells.
pub open spec fn tag_kind_ok(generations: bool, u: char) -> bool {
    u == '$' || u == dead_tag(generations) || is_fill_tag(u)
}

proof fn lemma_grid_tags_kind(generations: bool, rows: Rows, n: int, w: int)
    ensures
        forall|i: int|
            0 <= i < grid_tags(generations, rows, n, w).len() ==> tag_kind_ok(
                generations,
                #[trigger] grid_tags(generations, rows, n, w)[i],
            ),
    decreases n,
{
    if n > 0 {
        lemma_grid_tags_kind(generations, rows, n - 1, w);
        let prev = grid_tags(generations, rows, n - 1, w);
        let mid: Seq<char> = if n > 1 && w > 0 {
            seq!['$']
        } else {
            Seq::empty()
        };
        let rt = row_tags(generations, rows[n - 1]);
        let gt = grid_tags(generations, rows, n, w);
        assert(gt == prev + mid + rt);
        assert forall|i: int| 0 <= i < gt.len() implies tag_kind_ok(generations, #[trigger] gt[i]) by {
            if i < prev.len() {
                assert(gt[i] == prev[i]);
            } else if i < prev.len() + mid.len() {
                assert(gt[i] == mid[i - prev.len()]);
            } else {
                assert(gt[i] == rt[i - prev.len() - mid.len()]);
            }
        }
    }
}

/// Where reading any prefix of a grid's tags leaves the reader: within the grid's columns
/// (or just past the last) and rows.
proof fn lemma_prefix_pos(generations: bool, rows: Rows, w: int, h: int, n: int, k: int)
    requires
        rows_wf(rows, w, h),
        w > 0,
        1 <= n <= h,
        h <= 32767,
        w <= 32767,
        rows_taggable(generations, rows),
        0 <= k <= grid_tags(generations, rows, n, w).len(),
    ensures
        0 <= tag_read((0, 0), grid_tags(generations, rows, n, w).take(k)).0.0 <= w,
        0 <= tag_read((0, 0), grid_tags(generations, rows, n, w).take(k)).0.1 <= n - 1,
    decreases n,
{
    let row = rows[n - 1];
    assert forall|x: int| 0 <= x < row.len() implies (#[trigger] row[x]).spec_state() <= (if generations {
        3int
    } else {
        1int
    }) by {
        assert(rows[n - 1][x] == row[x]);
    }
    let rt = row_tags(generations, row);
    let gt = grid_tags(generations, rows, n, w);
    if n == 1 {
        assert(grid_tags(generations, rows, 0, w) == Seq::<char>::empty());
        assert(gt =~= rt);
        lemma_row_read(generations, row, 0, k);
    } else {
        let prev = grid_tags(generations, rows, n - 1, w);
        assert(gt == prev + seq!['$'] + rt);
        if k <= prev.len() {
            assert(gt.take(k) =~= prev.take(k));
            lemma_prefix_pos(generations, rows, w, h, n - 1, k);
        } else {
            let j = k - prev.len() - 1;
            assert(gt.take(k) =~= prev + seq!['$'] + rt.take(j));
            lemma_grid_read(generations, rows, Seq::<i16>::empty(), w, h, n - 1);
            lemma_tag_read_concat((0, 0), prev + seq!['$'], rt.take(j));
            lemma_tag_read_concat((0, 0), prev, seq!['$']);
            let a = tag_read((0, 0), prev);
            assert(seq!['$'].drop_last() =~= Seq::<char>::empty());
            assert(tag_read(a.0, Seq::<char>::empty()) == (a.0, Seq::<(Pos, Cell)>::empty()));
            assert(tag_read(a.0, seq!['$']).0 == (0int, n - 1));
            lemma_row_read(generations, row, n - 1, j);
        }
    }
}

/// A run written after a text that ends with no count pending.
proof fn lemma_item_read(s: Seq<char>, lc: int, c: int, t: char)
    requires
        text_read(s).0.2 == 0,
        !text_read(s).0.3,
        run_fits(text_read(s).0.0, text_read(s).0.1, c, t),
    ensures
        ({
            let e = text_read(s).0;
            let r = run_effect(e.0, e.1, c, t);
            text_read(item_write(c, t, s, lc).0) == (r.0, text_read(s).1 + r.1, text_read(s).2)
        }),
{
    let e = text_read(s).0;
    let core = run_text(c, t);
    lemma_decimal_digits(c as nat);
    assert forall|i: int| 0 <= i < core.len() implies #[trigger] core[i] != '\n' by {
        if c > 1 && i < decimal(c as nat).len() {
            assert(core[i] == decimal(c as nat)[i]);
            assert(is_digit(decimal(c as nat)[i]));
        }
    }
    let cs = decimal(c as nat);
    let newline = if c > 1 {
        lc + cs.len() + 2 >= 71
    } else {
        lc + 1 >= 70
    };
    let s2 = if newline {
        s.push('\n') + core
    } else {
        s + core
    };
    let o1 = if newline {
        s.push('\n')
    } else {
        s
    };
    if c > 1 {
        assert(item_write(c, t, s, lc).0 == o1 + cs + seq![t]);
        assert(o1 + cs + seq![t] =~= s2);
    } else {
        assert(item_write(c, t, s, lc).0 == o1.push(t));
        assert(o1.push(t) =~= s2);
    }
    lemma_text_append(s, core, newline);
    assert((e.0, e.1, 0int, false) == e);
    lemma_read_run(e.0, e.1, c, t);
}


/// What the writer holds, read back: the text written so far read with no count pending,
/// within range and at a non-negative position, and the pending run (with the pending dead
/// cells after a `$`) taking the reader from there to position `p.0` with the writes `p.1`.
pub open spec fn writer_reads_as(generations: bool, st: WriterState, p: ((int, int), Seq<(Pos, Cell)>)) -> bool {
    let e = text_read(st.2);
    &&& e.0.2 == 0
    &&& !e.0.3
    &&& e.2
    &&& e.0.0 >= 0
    &&& e.0.1 >= 0
    &&& st.3.1 == dead_tag(generations)
    &&& st.3.0 >= 0
    &&& match st.0 {
        None => st.3.0 == 0 && p.0 == (e.0.0, e.0.1) && p.1 == e.1,
        Some(it) => it.0 >= 1 && tag_kind_ok(generations, it.1) && if it.1 == '$' {
            p.0 == (st.3.0, e.0.1 + it.0) && p.1 == e.1
        } else {
            st.3.0 == 0 && p.0 == (e.0.0 + it.0, e.0.1) && p.1 == e.1 + run_effect(e.0.0, e.0.1, it.0, it.1).1
        },
    }
}

/// One tag read after the tags read so far.
pub open spec fn tag_then(p: ((int, int), Seq<(Pos, Cell)>), u: char) -> ((int, int), Seq<(Pos, Cell)>) {
    (tag_step(p.0, u).0, p.1 + tag_step(p.0, u).1)
}

proof fn lemma_fill_extend(x: int, y: int, c: int, t: char)
    requires
        c >= 0,
    ensures
        fill_writes(x, y, c + 1, t) == fill_writes(x, y, c, t) + seq![(Pos { x: (x + c) as i16, y: y as i16 }, tag_cell(t))],
{
    assert(fill_writes(x, y, c + 1, t) =~= fill_writes(x, y, c, t) + seq![(Pos { x: (x + c) as i16, y: y as i16 }, tag_cell(t))]);
}

/// The writer given one more tag still reads back as the tags given.
#[verifier::spinoff_prover]
#[verifier::rlimit(40)]
proof fn lemma_writer_step(generations: bool, st: WriterState, p: ((int, int), Seq<(Pos, Cell)>), u: char, w: int, h: int)
    requires
        writer_reads_as(generations, st, p),
        tag_kind_ok(generations, u),
        p.0.0 <= w <= 32767,
        p.0.1 <= h - 1,
        h <= 32767,
    ensures
        writer_reads_as(generations, writer_push(st, u), tag_then(p, u)),
{
    let e = text_read(st.2);
    let lc = st.1;
    let out = st.2;
    let dead = st.3;
    let q = tag_then(p, u);
    match st.0 {
        None => {
            if is_fill_tag(u) {
                assert(fill_writes(e.0.0, e.0.1, 1, u) =~= tag_step(p.0, u).1);
            }
            assert(q.1 =~= e.1 + run_effect(e.0.0, e.0.1, 1, u).1);
        },
        Some(it) => {
            let c = it.0;
            let t = it.1;
            if t == u {
                if t != '$' {
                    if is_fill_tag(t) {
                        lemma_fill_extend(e.0.0, e.0.1, c, t);
                        assert(q.1 =~= e.1 + run_effect(e.0.0, e.0.1, c + 1, t).1);
                    } else {
                        assert(q.1 =~= e.1 + run_effect(e.0.0, e.0.1, c + 1, t).1);
                    }
                } else {
                    assert(q.1 =~= p.1);
                }
            } else if t == '$' && u == dead.1 {
                assert(q.1 =~= p.1);
            } else {
                lemma_step_write(generations, st, p, u, w, h);
            }
        },
    }
}

/// The pending run ends: it is written (unless it is of dead cells before a `$`), then
/// any dead cells pending, and the new tag starts a run.
#[verifier::spinoff_prover]
#[verifier::rlimit(40)]
proof fn lemma_step_write(generations: bool, st: WriterState, p: ((int, int), Seq<(Pos, Cell)>), u: char, w: int, h: int)
    requires
        writer_reads_as(generations, st, p),
        tag_kind_ok(generations, u),
        p.0.0 <= w <= 32767,
        p.0.1 <= h - 1,
        h <= 32767,
        st.0 is Some,
        st.0.unwrap().1 != u,
        !(st.0.unwrap().1 == '$' && u == st.3.1),
    ensures
        writer_reads_as(generations, writer_push(st, u), tag_then(p, u)),
{
    let e = text_read(st.2);
    let lc = st.1;
    let out = st.2;
    let dead = st.3;
    let c = st.0.unwrap().0;
    let t = st.0.unwrap().1;
    let q = tag_then(p, u);
    let written = u != '$' || t != dead.1;
    let w1 = if written {
        item_write(c, t, out, lc)
    } else {
        (out, lc)
    };
    if written {
        lemma_item_read(out, lc, c, t);
    }
    let e1 = text_read(w1.0);
    if t == '$' {
        assert(e1.0 == (0int, e.0.1 + c, 0int, false));
        assert(e1.1 =~= e.1);
        assert(is_fill_tag(u));
        if dead.0 > 0 {
            lemma_item_read(w1.0, w1.1, dead.0, dead.1);
            let w2 = item_write(dead.0, dead.1, w1.0, w1.1);
            let e2 = text_read(w2.0);
            assert(e2.0 == (dead.0, e.0.1 + c, 0int, false));
            assert(e2.1 =~= e.1);
            assert(fill_writes(e2.0.0, e2.0.1, 1, u) =~= tag_step(p.0, u).1);
            assert(q.1 =~= e2.1 + run_effect(e2.0.0, e2.0.1, 1, u).1);
        } else {
            assert(fill_writes(e1.0.0, e1.0.1, 1, u) =~= tag_step(p.0, u).1);
            assert(q.1 =~= e1.1 + run_effect(e1.0.0, e1.0.1, 1, u).1);
        }
    } else {
        assert(dead.0 == 0);
        if written {
            assert(e1.0 == (e.0.0 + c, e.0.1, 0int, false));
            assert(e1.1 == p.1);
        } else {
            assert(e1 == e);
            assert(run_effect(e.0.0, e.0.1, c, t).1 =~= Seq::<(Pos, Cell)>::empty());
            assert(p.1 =~= e.1);
        }
        if u == '$' {
            assert(q.1 =~= e1.1);
        } else if is_fill_tag(u) {
            assert(fill_writes(e1.0.0, e1.0.1, 1, u) =~= tag_step(p.0, u).1);
            assert(q.1 =~= e1.1 + run_effect(e1.0.0, e1.0.1, 1, u).1);
        } else {
            assert(q.1 =~= e1.1 + run_effect(e1.0.0, e1.0.1, 1, u).1);
        }
    }
}


/// The writer before any tag: no run, an empty text, no dead cells pending.
pub open spec fn writer_start(generations: bool) -> WriterState {
    (None, 0, Seq::empty(), (0, dead_tag(generations)))
}

proof fn lemma_text_read_empty()
    ensures
        text_read(Seq::<char>::empty()) == ((0int, 0int, 0int, false), Seq::<(Pos, Cell)>::empty(), true),
{
    let ls = split_on(Seq::<char>::empty(), '\n');
    assert(ls == seq![Seq::<char>::empty()]);
    assert(ls.drop_last() =~= Seq::<Seq<char>>::empty());
    assert(rle_body((0, 0), ls.drop_last()) == ((0int, 0int), Seq::<(Pos, Cell)>::empty(), true));
    assert(Seq::<(Pos, Cell)>::empty() + Seq::<(Pos, Cell)>::empty() =~= Seq::<(Pos, Cell)>::empty());
}

/// After any prefix of a grid's tags, the writer reads back as that prefix.
proof fn lemma_writer_prefix(generations: bool, rows: Rows, w: int, h: int, k: int)
    requires
        rows_wf(rows, w, h),
        0 < w <= 32767,
        0 < h <= 32767,
        rows_taggable(generations, rows),
        0 <= k <= grid_tags(generations, rows, h, w).len(),
    ensures
        writer_reads_as(
            generations,
            writer_run(writer_start(generations), grid_tags(generations, rows, h, w).take(k)),
            tag_read((0, 0), grid_tags(generations, rows, h, w).take(k)),
        ),
    decreases k,
{
    let gt = grid_tags(generations, rows, h, w);
    if k == 0 {
        assert(gt.take(0) =~= Seq::<char>::empty());
        lemma_text_read_empty();
    } else {
        lemma_writer_prefix(generations, rows, w, h, k - 1);
        assert(gt.take(k).drop_last() =~= gt.take(k - 1));
        assert(gt.take(k).last() == gt[k - 1]);
        lemma_grid_tags_kind(generations, rows, h, w);
        lemma_prefix_pos(generations, rows, w, h, h, k - 1);
        let p = tag_read((0, 0), gt.take(k - 1));
        lemma_writer_step(
            generations,
            writer_run(writer_start(generations), gt.take(k - 1)),
            p,
            gt[k - 1],
            w,
            h,
        );
    }
}

/// The writer's last run written and `!` added: the text reads back with the writes of
/// all the tags given, within range.
proof fn lemma_writer_finish(generations: bool, st: WriterState, p: ((int, int), Seq<(Pos, Cell)>), w: int, h: int)
    requires
        writer_reads_as(generations, st, p),
        p.0.0 <= w <= 32767,
        p.0.1 <= h - 1,
        h <= 32767,
    ensures
        text_read(writer_flush(st).push('!')).1 == p.1,
        text_read(writer_flush(st).push('!')).2,
{
    let e = text_read(st.2);
    let f = writer_flush(st);
    let ef = text_read(f);
    match st.0 {
        None => {},
        Some(it) => {
            if it.1 != st.3.1 {
                lemma_item_read(st.2, st.1, it.0, it.1);
                if it.1 == '$' {
                    assert(ef.1 =~= p.1);
                } else {
                    assert(ef.1 == p.1);
                }
            } else {
                assert(run_effect(e.0.0, e.0.1, it.0, it.1).1 =~= Seq::<(Pos, Cell)>::empty());
                assert(p.1 =~= e.1);
            }
        },
    }
    assert(ef.1 == p.1);
    assert(ef.0.2 == 0 && !ef.0.3 && ef.2);
    assert(f.push('!') =~= f + seq!['!']);
    lemma_text_append(f, seq!['!'], false);
    let r = rle_line(ef.0, seq!['!']);
    assert(seq!['!'].drop_last() =~= Seq::<char>::empty());
    assert(rle_line(ef.0, Seq::<char>::empty()) == (ef.0, Seq::<(Pos, Cell)>::empty()));
    assert(rle_line_valid(ef.0, Seq::<char>::empty()));
    assert(rle_char_valid(ef.0, '!'));
    assert(r.1 =~= Seq::<(Pos, Cell)>::empty());
    assert(ef.1 + r.1 =~= ef.1);
}


proof fn lemma_no_column_tags(generations: bool, rows: Rows, n: int, h: int)
    requires
        rows_wf(rows, 0, h),
        n <= h,
    ensures
        grid_tags(generations, rows, n, 0) == Seq::<char>::empty(),
    decreases n,
{
    if n > 0 {
        lemma_no_column_tags(generations, rows, n - 1, h);
        assert(row_tags(generations, rows[n - 1]) =~= Seq::<char>::empty());
        assert(grid_tags(generations, rows, n, 0) =~= Seq::<char>::empty());
    }
}

/// Reading back the RLE body that the writer makes of a grid gives the grid, every line
/// read within range: each dead cell dead, each live cell with the state of its tag.
pub proof fn law_rle_body_round_trip(generations: bool, rows: Rows, w: int, h: int)
    requires
        rows_wf(rows, w, h),
        0 <= w <= max_dim(),
        0 <= h <= max_dim(),
        rows_taggable(generations, rows),
    ensures
        ({
            let b = rle_body((0, 0), split_on(rle_body_text(generations, rows, w, h, Seq::empty()), '\n'));
            &&& b.2
            &&& apply_writes((dead_rows(w, h), zero_pops()), b.1).0 == read_rows(generations, rows)
        }),
{
    let gt = grid_tags(generations, rows, h, w);
    let start = writer_start(generations);
    let text = rle_body_text(generations, rows, w, h, Seq::empty());
    assert(text == writer_flush(writer_run(start, gt)).push('!'));
    lemma_text_body(text);
    if w == 0 || h == 0 {
        if w == 0 {
            lemma_no_column_tags(generations, rows, h, h);
        }
        assert(gt == Seq::<char>::empty());
        lemma_text_read_empty();
        lemma_writer_finish(generations, start, ((0int, 0int), Seq::<(Pos, Cell)>::empty()), 0, 1);
        assert(read_rows(generations, rows) =~~= dead_rows(w, h));
    } else {
        assert(gt.take(gt.len() as int) =~= gt);
        lemma_writer_prefix(generations, rows, w, h, gt.len() as int);
        lemma_prefix_pos(generations, rows, w, h, h, gt.len() as int);
        let p = tag_read((0, 0), gt);
        lemma_writer_finish(generations, writer_run(start, gt), p, w, h);
        lemma_grid_read(generations, rows, zero_pops(), w, h, h);
        assert(rows_read_upto(generations, rows, w, h, h) =~~= read_rows(generations, rows));
    }
}


/// A run written after a text `head` is the run written after nothing, placed after `head`.
proof fn lemma_item_write_after(head: Seq<char>, c: int, t: char, out: Seq<char>, lc: int)
    ensures
        item_write(c, t, head + out, lc) == (head + item_write(c, t, out, lc).0, item_write(c, t, out, lc).1),
{
    let cs = decimal(c as nat);
    if c > 1 {
        assert((head + out).push('\n') =~= head + out.push('\n'));
        assert((head + out).push('\n') + cs + seq![t] =~= head + (out.push('\n') + cs + seq![t]));
        assert(head + out + cs + seq![t] =~= head + (out + cs + seq![t]));
    } else {
        assert((head + out).push('\n').push(t) =~= head + out.push('\n').push(t));
        assert((head + out).push(t) =~= head + out.push(t));
    }
}

/// The writer started after a text `head` writes what it writes started on nothing, after
/// `head`.
proof fn lemma_writer_after(head: Seq<char>, d: (int, char), tags: Seq<char>)
    ensures
        ({
            let a = writer_run((None, 0, head, d), tags);
            let b = writer_run((None, 0, Seq::empty(), d), tags);
            a.0 == b.0 && a.1 == b.1 && a.2 == head + b.2 && a.3 == b.3
        }),
    decreases tags.len(),
{
    if tags.len() == 0 {
        assert(head + Seq::<char>::empty() =~= head);
    } else {
        lemma_writer_after(head, d, tags.drop_last());
        let a = writer_run((None, 0, head, d), tags.drop_last());
        let b = writer_run((None, 0, Seq::empty(), d), tags.drop_last());
        let u = tags.last();
        match b.0 {
            Some(it) => {
                lemma_item_write_after(head, it.0, it.1, b.2, b.1);
                let w1 = item_write(it.0, it.1, b.2, b.1);
                lemma_item_write_after(head, b.3.0, b.3.1, w1.0, w1.1);
                lemma_item_write_after(head, b.3.0, b.3.1, b.2, b.1);
            },
            None => {},
        }
    }
}

/// The RLE text of a grid with a header: the header, then the text of its body alone.
proof fn lemma_body_text_after(generations: bool, rows: Rows, w: int, h: int, head: Seq<char>)
    ensures
        rle_body_text(generations, rows, w, h, head) == head + rle_body_text(generations, rows, w, h, Seq::empty()),
{
    let d = (0int, dead_tag(generations));
    let gt = grid_tags(generations, rows, h, w);
    lemma_writer_after(head, d, gt);
    let a = writer_run((None, 0, head, d), gt);
    let b = writer_run((None, 0, Seq::empty(), d), gt);
    match b.0 {
        Some(it) => {
            lemma_item_write_after(head, it.0, it.1, b.2, b.1);
        },
        None => {},
    }
    assert(writer_flush(a) == head + writer_flush(b));
    assert((head + writer_flush(b)).push('!') =~= head + writer_flush(b).push('!'));
}

/// Lines joined, each ended by a line feed.
pub open spec fn join_lines(ls: Seq<Seq<char>>) -> Seq<char>
    decreases ls.len(),
{
    if ls.len() == 0 {
        Seq::empty()
    } else {
        join_lines(ls.drop_last()) + ls.last() + seq!['\n']
    }
}

proof fn lemma_split_joined(ls: Seq<Seq<char>>)
    requires
        forall|k: int, i: int| 0 <= k < ls.len() && 0 <= i < ls[k].len() ==> #[trigger] ls[k][i] != '\n',
    ensures
        split_on(join_lines(ls), '\n') == ls.push(Seq::<char>::empty()),
    decreases ls.len(),
{
    if ls.len() == 0 {
        assert(split_on(Seq::<char>::empty(), '\n') =~= ls.push(Seq::<char>::empty()));
    } else {
        let prev = ls.drop_last();
        assert forall|k: int, i: int| 0 <= k < prev.len() && 0 <= i < prev[k].len() implies #[trigger] prev[k][i]
            != '\n' by {
            assert(prev[k] == ls[k]);
        }
        lemma_split_joined(prev);
        let l = ls.last();
        assert forall|i: int| 0 <= i < l.len() implies #[trigger] l[i] != '\n' by {
            assert(ls[ls.len() - 1][i] == l[i]);
        }
        let j = join_lines(prev);
        lemma_split_on_extend(j, l, '\n');
        let t = j + l + seq!['\n'];
        assert(t == (j + l).push('\n'));
        assert(t.drop_last() =~= j + l);
        assert(split_on(j + l, '\n') =~= ls);
    }
}

/// The lines of a text after a text whose last line is ended: that text's lines, then
/// the lines of the rest.
proof fn lemma_split_after(head: Seq<char>, b: Seq<char>)
    requires
        head.len() > 0,
        head.last() == '\n',
    ensures
        split_on(head + b, '\n') == split_on(head, '\n').drop_last() + split_on(b, '\n'),
    decreases b.len(),
{
    lemma_split_on_len(head.drop_last(), '\n');
    if b.len() == 0 {
        assert(head + b =~= head);
        assert(split_on(head, '\n') == split_on(head.drop_last(), '\n').push(Seq::<char>::empty()));
        assert(split_on(head, '\n').drop_last() + split_on(b, '\n') =~= split_on(head, '\n'));
    } else {
        lemma_split_after(head, b.drop_last());
        assert((head + b).drop_last() =~= head + b.drop_last());
        assert((head + b).last() == b.last());
        lemma_split_on_len(b.drop_last(), '\n');
        let rest = split_on(b.drop_last(), '\n');
        let pre = split_on(head, '\n').drop_last();
        if b.last() == '\n' {
            assert((pre + rest).push(Seq::<char>::empty()) =~= pre + rest.push(Seq::<char>::empty()));
        } else {
            assert((pre + rest).update((pre + rest).len() - 1, (pre + rest).last().push(b.last())) =~= pre
                + rest.update(rest.len() - 1, rest.last().push(b.last())));
        }
    }
}


/// The character `c` does not occur in the text.
pub open spec fn lacks(s: Seq<char>, c: char) -> bool {
    forall|i: int| 0 <= i < s.len() ==> #[trigger] s[i] != c
}

/// The size and rule line of the RLE header.
pub open spec fn x_line(w: int, h: int, rule: LifeRule) -> Seq<char> {
    seq!['x', ' ', '=', ' '] + decimal(w as nat) + seq![',', ' ', 'y', ' ', '=', ' '] + decimal(h as nat) + seq![
        ',',
        ' ',
        'r',
        'u',
        'l',
        'e',
        ' ',
        '=',
        ' ',
    ] + rule.spec_to_str()
}

/// The lines of the RLE header: the name, the description, the size and rule.
pub open spec fn head_lines(name: Option<String>, description: Option<String>, w: int, h: int, rule: LifeRule) -> Seq<
    Seq<char>,
> {
    (match name {
        Some(n) => seq![n_prefix() + n@],
        None => Seq::empty(),
    }) + (match description {
        Some(d) => seq![c_prefix() + d@],
        None => Seq::empty(),
    }) + seq![x_line(w, h, rule)]
}

proof fn lemma_head_join(name: Option<String>, description: Option<String>, w: int, h: int, rule: LifeRule)
    ensures
        rle_head(name, description, w, h, rule) == join_lines(head_lines(name, description, w, h, rule)),
{
    let hl = head_lines(name, description, w, h, rule);
    let xl = x_line(w, h, rule);
    let a: Seq<char> = match name {
        Some(n) => n_prefix() + n@ + seq!['\n'],
        None => Seq::empty(),
    };
    let b: Seq<char> = match description {
        Some(d) => c_prefix() + d@ + seq!['\n'],
        None => Seq::empty(),
    };
    assert(rle_head(name, description, w, h, rule) =~= a + b + xl + seq!['\n']);
    reveal_with_fuel(join_lines, 4);
    match name {
        Some(n) => {
            match description {
                Some(d) => {
                    assert(hl =~= seq![n_prefix() + n@, c_prefix() + d@, xl]);
                    assert(hl.drop_last() =~= seq![n_prefix() + n@, c_prefix() + d@]);
                    assert(hl.drop_last().drop_last() =~= seq![n_prefix() + n@]);
                    assert(hl.drop_last().drop_last().drop_last() =~= Seq::<Seq<char>>::empty());
                    assert(join_lines(hl) =~= a + b + xl + seq!['\n']);
                },
                None => {
                    assert(hl =~= seq![n_prefix() + n@, xl]);
                    assert(hl.drop_last() =~= seq![n_prefix() + n@]);
                    assert(hl.drop_last().drop_last() =~= Seq::<Seq<char>>::empty());
                    assert(join_lines(hl) =~= a + b + xl + seq!['\n']);
                },
            }
        },
        None => {
            match description {
                Some(d) => {
                    assert(hl =~= seq![c_prefix() + d@, xl]);
                    assert(hl.drop_last() =~= seq![c_prefix() + d@]);
                    assert(hl.drop_last().drop_last() =~= Seq::<Seq<char>>::empty());
                    assert(join_lines(hl) =~= a + b + xl + seq!['\n']);
                },
                None => {
                    assert(hl =~= seq![xl]);
                    assert(hl.drop_last() =~= Seq::<Seq<char>>::empty());
                    assert(join_lines(hl) =~= a + b + xl + seq!['\n']);
                },
            }
        },
    }
}

proof fn lemma_lacks_concat(a: Seq<char>, b: Seq<char>, c: char)
    requires
        lacks(a, c),
        lacks(b, c),
    ensures
        lacks(a + b, c),
{
    assert forall|i: int| 0 <= i < (a + b).len() implies #[trigger] (a + b)[i] != c by {
        if i < a.len() {
            assert((a + b)[i] == a[i]);
        } else {
            assert((a + b)[i] == b[i - a.len()]);
        }
    }
}

proof fn lemma_decimal_lacks(n: nat, c: char)
    requires
        !is_digit(c),
    ensures
        lacks(decimal(n), c),
{
    lemma_decimal_digits(n);
    assert forall|i: int| 0 <= i < decimal(n).len() implies #[trigger] decimal(n)[i] != c by {
        assert(is_digit(decimal(n)[i]));
    }
}

/// The text of a rule: `B`, digits, `/S`, digits, and `/4` for a Generations rule.
proof fn lemma_rule_text_lacks(rule: LifeRule, c: char)
    requires
        !is_digit(c),
        c != 'B',
        c != '/',
        c != 'S',
    ensures
        lacks(rule.spec_to_str(), c),
{
    let d1 = decimal(crate::life::rule::births_number(rule.spec_lut()[0], 8) as nat);
    let d2 = decimal(crate::life::rule::survives_number(rule.spec_lut()[1], 8) as nat);
    lemma_decimal_lacks(crate::life::rule::births_number(rule.spec_lut()[0], 8) as nat, c);
    lemma_decimal_lacks(crate::life::rule::survives_number(rule.spec_lut()[1], 8) as nat, c);
    assert(lacks(seq!['B'], c));
    assert(lacks(seq!['/', 'S'], c));
    assert(lacks(seq!['/', '4'], c));
    lemma_lacks_concat(seq!['B'], d1, c);
    lemma_lacks_concat(seq!['B'] + d1, seq!['/', 'S'], c);
    lemma_lacks_concat(seq!['B'] + d1 + seq!['/', 'S'], d2, c);
    let base = seq!['B'] + d1 + seq!['/', 'S'] + d2;
    lemma_lacks_concat(base, seq!['/', '4'], c);
}

proof fn lemma_x_line_lacks(w: int, h: int, rule: LifeRule)
    ensures
        lacks(x_line(w, h, rule), '\n'),
{
    let c = '\n';
    lemma_decimal_lacks(w as nat, c);
    lemma_decimal_lacks(h as nat, c);
    lemma_rule_text_lacks(rule, c);
    let p1 = seq!['x', ' ', '=', ' '];
    let p2 = seq![',', ' ', 'y', ' ', '=', ' '];
    let p3 = seq![',', ' ', 'r', 'u', 'l', 'e', ' ', '=', ' '];
    assert(lacks(p1, c));
    assert(lacks(p2, c));
    assert(lacks(p3, c));
    lemma_lacks_concat(p1, decimal(w as nat), c);
    lemma_lacks_concat(p1 + decimal(w as nat), p2, c);
    lemma_lacks_concat(p1 + decimal(w as nat) + p2, decimal(h as nat), c);
    lemma_lacks_concat(p1 + decimal(w as nat) + p2 + decimal(h as nat), p3, c);
    lemma_lacks_concat(p1 + decimal(w as nat) + p2 + decimal(h as nat) + p3, rule.spec_to_str(), c);
}

proof fn lemma_first_plain_at(ls: Seq<Seq<char>>, i: int, m: int)
    requires
        0 <= i <= m < ls.len(),
        forall|k: int| i <= k < m ==> is_hash_line(#[trigger] ls[k]),
        !is_hash_line(ls[m]),
    ensures
        first_plain(ls, i) == m,
    decreases m - i,
{
    if i < m {
        lemma_first_plain_at(ls, i + 1, m);
    }
}

/// The lines of the RLE text of a grid with a header whose name and description hold no
/// line feed: the header lines, then the body lines; the size line is the first line that
/// is not a `#` line, and the `#` lines give the name and description.
proof fn lemma_text_lines(
    name: Option<String>,
    description: Option<String>,
    rule: LifeRule,
    rows: Rows,
    w: int,
    h: int,
)
    requires
        name matches Some(n) ==> lacks(n@, '\n'),
        description matches Some(d) ==> lacks(d@, '\n'),
    ensures
        ({
            let generations = rule.spec_is_generations();
            let hl = head_lines(name, description, w, h, rule);
            let body = rle_body_text(generations, rows, w, h, Seq::empty());
            let ls = split_on(rle_body_text(generations, rows, w, h, rle_head(name, description, w, h, rule)), '\n');
            let hx = first_plain(ls, 0);
            &&& ls == hl + split_on(body, '\n')
            &&& hx == hl.len() - 1
            &&& ls[hx] == x_line(w, h, rule)
            &&& ls.skip(hx + 1) == split_on(body, '\n')
            &&& rle_name(ls.take(hx)) == opt_view(name)
            &&& rle_description(ls.take(hx)) == opt_view(description)
            &&& forall|k: int| 0 <= k < hx ==> starts_with(#[trigger] ls[k], n_prefix()) || starts_with(ls[k], c_prefix())
        }),
{
    let generations = rule.spec_is_generations();
    let hl = head_lines(name, description, w, h, rule);
    let head = rle_head(name, description, w, h, rule);
    let body = rle_body_text(generations, rows, w, h, Seq::empty());
    let xl = x_line(w, h, rule);
    lemma_body_text_after(generations, rows, w, h, head);
    lemma_head_join(name, description, w, h, rule);
    lemma_x_line_lacks(w, h, rule);
    let nl: Seq<Seq<char>> = match name {
        Some(n) => seq![n_prefix() + n@],
        None => Seq::empty(),
    };
    let cl: Seq<Seq<char>> = match description {
        Some(d) => seq![c_prefix() + d@],
        None => Seq::empty(),
    };
    assert(hl == nl + cl + seq![xl]);
    match name {
        Some(n) => {
            assert(lacks(n_prefix(), '\n'));
            lemma_lacks_concat(n_prefix(), n@, '\n');
        },
        None => {},
    }
    match description {
        Some(d) => {
            assert(lacks(c_prefix(), '\n'));
            lemma_lacks_concat(c_prefix(), d@, '\n');
        },
        None => {},
    }
    assert forall|k: int, i: int| 0 <= k < hl.len() && 0 <= i < hl[k].len() implies #[trigger] hl[k][i] != '\n' by {
        if k < nl.len() {
            assert(hl[k] == nl[k]);
        } else if k < nl.len() + cl.len() {
            assert(hl[k] == cl[k - nl.len()]);
        } else {
            assert(hl[k] == xl);
        }
    }
    lemma_split_joined(hl);
    let jh = join_lines(hl);
    assert(hl.len() > 0);
    assert(jh == join_lines(hl.drop_last()) + hl.last() + seq!['\n']);
    lemma_split_after(jh, body);
    let ls = split_on(head + body, '\n');
    assert(hl.push(Seq::<char>::empty()).drop_last() =~= hl);
    assert(ls == hl + split_on(body, '\n'));
    let m = hl.len() - 1;
    assert(ls[m] == xl);
    assert(xl[0] == 'x');
    assert forall|k: int| 0 <= k < m implies #[trigger] starts_with(ls[k], n_prefix()) || starts_with(ls[k], c_prefix()) by {
        assert(ls[k] == hl[k]);
        if k < nl.len() {
            assert(hl[k] == nl[k]);
            match name {
                Some(n) => {
                    assert((n_prefix() + n@).take(3) =~= n_prefix());
                },
                None => {},
            }
        } else {
            assert(hl[k] == cl[k - nl.len()]);
            match description {
                Some(d) => {
                    assert((c_prefix() + d@).take(3) =~= c_prefix());
                },
                None => {},
            }
        }
    }
    assert forall|k: int| 0 <= k < m implies is_hash_line(#[trigger] ls[k]) by {
        assert(starts_with(ls[k], n_prefix()) || starts_with(ls[k], c_prefix()));
        assert(ls[k].take(3)[0] == ls[k][0]);
    }
    lemma_first_plain_at(ls, 0, m);
    assert(ls.skip(m + 1) =~= split_on(body, '\n'));
    let tk = ls.take(m);
    assert(tk =~= nl + cl);
    match name {
        Some(n) => {
            assert((n_prefix() + n@).skip(3) =~= n@);
            match description {
                Some(d) => {
                    assert(!starts_with(c_prefix() + d@, n_prefix())) by {
                        assert((c_prefix() + d@).take(3)[1] == 'C');
                    }
                    assert(starts_with(c_prefix() + d@, c_prefix())) by {
                        assert((c_prefix() + d@).take(3) =~= c_prefix());
                    }
                    assert((c_prefix() + d@).skip(3) =~= d@);
                    assert(tk.drop_last() =~= nl);
                    assert(starts_with(n_prefix() + n@, n_prefix())) by {
                        assert((n_prefix() + n@).take(3) =~= n_prefix());
                    }
                    assert(!starts_with(n_prefix() + n@, c_prefix())) by {
                        assert((n_prefix() + n@).take(3)[1] == 'N');
                    }
                    assert(nl.drop_last() =~= Seq::<Seq<char>>::empty());
                    assert(tk.last() == c_prefix() + d@);
                    assert(rle_name(tk) == rle_name(nl));
                    assert(nl.last() == n_prefix() + n@);
                    assert(rle_name(nl) == Some(n@));
                    assert(rle_description(tk) == Some(d@));
                },
                None => {
                    assert(tk =~= nl);
                    assert(starts_with(n_prefix() + n@, n_prefix())) by {
                        assert((n_prefix() + n@).take(3) =~= n_prefix());
                    }
                    assert(!starts_with(n_prefix() + n@, c_prefix())) by {
                        assert((n_prefix() + n@).take(3)[1] == 'N');
                    }
                    assert(nl.drop_last() =~= Seq::<Seq<char>>::empty());
                    assert(nl.last() == n_prefix() + n@);
                    assert(rle_name(nl) == Some(n@));
                    assert(rle_description(nl) == rle_description(Seq::<Seq<char>>::empty()));
                },
            }
        },
        None => {
            match description {
                Some(d) => {
                    assert(tk =~= cl);
                    assert(!starts_with(c_prefix() + d@, n_prefix())) by {
                        assert((c_prefix() + d@).take(3)[1] == 'C');
                    }
                    assert(starts_with(c_prefix() + d@, c_prefix())) by {
                        assert((c_prefix() + d@).take(3) =~= c_prefix());
                    }
                    assert((c_prefix() + d@).skip(3) =~= d@);
                    assert(cl.drop_last() =~= Seq::<Seq<char>>::empty());
                    assert(cl.last() == c_prefix() + d@);
                    assert(rle_name(cl) == rle_name(Seq::<Seq<char>>::empty()));
                    assert(rle_description(cl) == Some(d@));
                },
                None => {
                    assert(tk =~= Seq::<Seq<char>>::empty());
                },
            }
        },
    }
}


proof fn lemma_scan_skip(s: Seq<char>, sep: Seq<char>, start: int, i: int, k: int)
    requires
        sep.len() > 0,
        0 <= start <= i <= k,
        k + sep.len() <= s.len(),
        forall|j: int| i <= j < k ==> #[trigger] s[j] != sep[0],
    ensures
        split_scan(s, sep, start, i) == split_scan(s, sep, start, k),
    decreases k - i,
{
    if i < k {
        assert(s.subrange(i, i + sep.len())[0] == s[i]);
        assert(!occurs_at(s, sep, i));
        lemma_scan_skip(s, sep, start, i + 1, k);
    }
}

proof fn lemma_scan_last(s: Seq<char>, sep: Seq<char>, start: int, i: int)
    requires
        sep.len() > 0,
        0 <= start <= i,
        forall|j: int| i <= j < s.len() ==> #[trigger] s[j] != sep[0],
    ensures
        split_scan(s, sep, start, i) == seq![s.subrange(start, s.len() as int)],
    decreases s.len() + 1 - i,
{
    if i + sep.len() <= s.len() {
        assert(s.subrange(i, i + sep.len())[0] == s[i]);
        assert(!occurs_at(s, sep, i));
        lemma_scan_last(s, sep, start, i + 1);
    }
}

/// The fields of the size and rule line.
pub open spec fn x_fields(w: int, h: int, rule: LifeRule) -> Seq<Seq<char>> {
    seq![
        seq!['x', ' ', '=', ' '] + decimal(w as nat),
        seq!['y', ' ', '=', ' '] + decimal(h as nat),
        seq!['r', 'u', 'l', 'e', ' ', '=', ' '] + rule.spec_to_str(),
    ]
}

proof fn lemma_x_line_fields(w: int, h: int, rule: LifeRule)
    ensures
        split_str(x_line(w, h, rule), field_sep()) == x_fields(w, h, rule),
{
    let sep = field_sep();
    let fs = x_fields(w, h, rule);
    let a = fs[0];
    let b = fs[1];
    let c = fs[2];
    let s = x_line(w, h, rule);
    assert(s =~= a + sep + b + sep + c);
    lemma_decimal_lacks(w as nat, ',');
    lemma_decimal_lacks(h as nat, ',');
    lemma_rule_text_lacks(rule, ',');
    assert(lacks(seq!['x', ' ', '=', ' '], ','));
    assert(lacks(seq!['y', ' ', '=', ' '], ','));
    assert(lacks(seq!['r', 'u', 'l', 'e', ' ', '=', ' '], ','));
    lemma_lacks_concat(seq!['x', ' ', '=', ' '], decimal(w as nat), ',');
    lemma_lacks_concat(seq!['y', ' ', '=', ' '], decimal(h as nat), ',');
    lemma_lacks_concat(seq!['r', 'u', 'l', 'e', ' ', '=', ' '], rule.spec_to_str(), ',');
    let la = a.len() as int;
    let lb = b.len() as int;
    assert forall|j: int| 0 <= j < la implies #[trigger] s[j] != sep[0] by {
        assert(s[j] == a[j]);
    }
    lemma_scan_skip(s, sep, 0, 0, la);
    assert(s.subrange(la, la + 2) =~= sep);
    assert(occurs_at(s, sep, la));
    assert(split_scan(s, sep, 0, la) == seq![s.subrange(0, la)] + split_scan(s, sep, la + 2, la + 2));
    assert forall|j: int| la + 2 <= j < la + 2 + lb implies #[trigger] s[j] != sep[0] by {
        assert(s[j] == b[j - la - 2]);
    }
    lemma_scan_skip(s, sep, la + 2, la + 2, la + 2 + lb);
    assert(s.subrange(la + 2 + lb, la + 4 + lb) =~= sep);
    assert(occurs_at(s, sep, la + 2 + lb));
    assert(split_scan(s, sep, la + 2, la + 2 + lb) == seq![s.subrange(la + 2, la + 2 + lb)] + split_scan(
        s,
        sep,
        la + 4 + lb,
        la + 4 + lb,
    ));
    assert forall|j: int| la + 4 + lb <= j < s.len() implies #[trigger] s[j] != sep[0] by {
        assert(s[j] == c[j - la - 4 - lb]);
    }
    lemma_scan_last(s, sep, la + 4 + lb, la + 4 + lb);
    assert(s.subrange(0, la) =~= a);
    assert(s.subrange(la + 2, la + 2 + lb) =~= b);
    assert(s.subrange(la + 4 + lb, s.len() as int) =~= c);
    assert(split_str(s, sep) =~= fs);
}

/// A number written in decimal, within `i16`, parses back.
proof fn lemma_parse_decimal(n: nat)
    requires
        n <= 32767,
    ensures
        parse_i16(decimal(n)) == Some(n as i16),
{
    lemma_decimal_digits(n);
    let d = decimal(n);
    assert(is_digit(d[0]));
    assert(all_digits(d));
}

/// The fields of the size and rule line, each split at ` = `.
proof fn lemma_x_fields_split(w: int, h: int, rule: LifeRule)
    requires
        0 <= w <= 32767,
        0 <= h <= 32767,
    ensures
        split_once(x_fields(w, h, rule)[0], value_sep()) == Some((seq!['x'], decimal(w as nat))),
        split_once(x_fields(w, h, rule)[1], value_sep()) == Some((seq!['y'], decimal(h as nat))),
        split_once(x_fields(w, h, rule)[2], value_sep()) == Some((rule_word(), rule.spec_to_str())),
{
    let sep = value_sep();
    let fs = x_fields(w, h, rule);
    let a = fs[0];
    let b = fs[1];
    let c = fs[2];
    lemma_decimal_digits(w as nat);
    lemma_decimal_digits(h as nat);
    assert(a.subrange(0, 3)[0] == 'x');
    assert(!occurs_at(a, sep, 0));
    assert(a.subrange(1, 4) =~= sep);
    assert(find_from(a, sep, 1) == Some(1int));
    assert(a.subrange(0, 1) =~= seq!['x']);
    assert(a.subrange(4, a.len() as int) =~= decimal(w as nat));
    assert(b.subrange(0, 3)[0] == 'y');
    assert(!occurs_at(b, sep, 0));
    assert(b.subrange(1, 4) =~= sep);
    assert(find_from(b, sep, 1) == Some(1int));
    assert(b.subrange(0, 1) =~= seq!['y']);
    assert(b.subrange(4, b.len() as int) =~= decimal(h as nat));
    assert(c.subrange(0, 3)[0] == 'r');
    assert(!occurs_at(c, sep, 0));
    assert(c.subrange(1, 4)[0] == 'u');
    assert(!occurs_at(c, sep, 1));
    assert(c.subrange(2, 5)[0] == 'l');
    assert(!occurs_at(c, sep, 2));
    assert(c.subrange(3, 6)[0] == 'e');
    assert(!occurs_at(c, sep, 3));
    assert(c.subrange(4, 7) =~= sep);
    assert(find_from(c, sep, 4) == Some(4int));
    assert(find_from(c, sep, 3) == Some(4int));
    assert(find_from(c, sep, 2) == Some(4int));
    assert(find_from(c, sep, 1) == Some(4int));
    assert(c.subrange(0, 4) =~= rule_word());
    assert(c.subrange(7, c.len() as int) =~= rule.spec_to_str());
}


proof fn lemma_states_push(a: Seq<char>, c: char)
    ensures
        states_portion_supported(a.push(c)) == (states_portion_supported(a) && (is_digit(c) && slash_count(a) == 2
            ==> c == '3' || c == '4')),
        slash_count(a.push(c)) == slash_count(a) + if c == '/' {
            1nat
        } else {
            0nat
        },
{
    assert(a.push(c).drop_last() =~= a);
}

proof fn lemma_states_digits(a: Seq<char>, d: Seq<char>)
    requires
        states_portion_supported(a),
        slash_count(a) != 2,
        all_digits(d),
    ensures
        states_portion_supported(a + d),
        slash_count(a + d) == slash_count(a),
    decreases d.len(),
{
    if d.len() == 0 {
        assert(a + d =~= a);
    } else {
        let p = d.drop_last();
        assert(all_digits(p)) by {
            assert forall|i: int| 0 <= i < p.len() implies is_digit(#[trigger] p[i]) by {
                assert(p[i] == d[i]);
            }
        }
        lemma_states_digits(a, p);
        assert(a + d =~= (a + p).push(d.last()));
        assert(is_digit(d[d.len() - 1]));
        lemma_states_push(a + p, d.last());
    }
}

/// The text of a rule has no digit after a second `/` but the `4` of a Generations rule.
proof fn lemma_rule_text_supported(rule: LifeRule)
    ensures
        states_portion_supported(rule.spec_to_str()),
{
    let n1 = crate::life::rule::births_number(rule.spec_lut()[0], 8) as nat;
    let n2 = crate::life::rule::survives_number(rule.spec_lut()[1], 8) as nat;
    let d1 = decimal(n1);
    let d2 = decimal(n2);
    lemma_decimal_digits(n1);
    lemma_decimal_digits(n2);
    let e = Seq::<char>::empty();
    assert(seq!['B'] =~= e.push('B'));
    lemma_states_push(e, 'B');
    lemma_states_digits(seq!['B'], d1);
    let a1 = seq!['B'] + d1;
    lemma_states_push(a1, '/');
    lemma_states_push(a1.push('/'), 'S');
    assert(a1 + seq!['/', 'S'] =~= a1.push('/').push('S'));
    let a2 = a1 + seq!['/', 'S'];
    lemma_states_digits(a2, d2);
    let base = a2 + d2;
    lemma_states_push(base, '/');
    lemma_states_push(base.push('/'), '4');
    assert(base + seq!['/', '4'] =~= base.push('/').push('4'));
}

/// The size line read back: its fields are all known, and give the size and the text of
/// the rule.
proof fn lemma_x_fields_read(w: int, h: int, rule: LifeRule)
    requires
        0 <= w <= 32767,
        0 <= h <= 32767,
    ensures
        forall|k: int| 0 <= k < x_fields(w, h, rule).len() ==> field_ok(#[trigger] x_fields(w, h, rule)[k]),
        rle_width(x_fields(w, h, rule)) == w,
        rle_height(x_fields(w, h, rule)) == h,
        rle_rule_lut(x_fields(w, h, rule)) == rule_lut(rule.spec_to_str()),
{
    let fs = x_fields(w, h, rule);
    lemma_x_fields_split(w, h, rule);
    lemma_parse_decimal(w as nat);
    lemma_parse_decimal(h as nat);
    lemma_rule_text_supported(rule);
    assert(rule_word() != seq!['x']) by {
        assert(rule_word().len() != 1);
    }
    assert(rule_word() != seq!['y']) by {
        assert(rule_word().len() != 1);
    }
    assert(seq!['y'] != seq!['x']) by {
        assert(seq!['y'][0] != seq!['x'][0]);
    }
    assert(seq!['x'] != seq!['y']) by {
        assert(seq!['y'][0] != seq!['x'][0]);
    }
    assert(seq!['x'] != rule_word()) by {
        assert(rule_word().len() != 1);
    }
    assert(seq!['y'] != rule_word()) by {
        assert(rule_word().len() != 1);
    }
    let f2 = fs.drop_last();
    let f1 = f2.drop_last();
    assert(fs.last() == fs[2]);
    assert(f2.last() == fs[1]);
    assert(f1.last() == fs[0]);
    assert(f1.drop_last() =~= Seq::<Seq<char>>::empty());
    assert(rle_width(f1) == w);
    assert(rle_width(f2) == w);
    assert(rle_height(f2) == h);
    assert(rle_rule_lut(fs) == rule_lut(rule.spec_to_str()));
    assert forall|k: int| 0 <= k < fs.len() implies field_ok(#[trigger] fs[k]) by {
        if k == 0 {
            assert(field_ok(fs[0]));
        } else if k == 1 {
            assert(field_ok(fs[1]));
        } else {
            assert(field_ok(fs[2]));
        }
    }
}


/// Reading back the RLE text that a pattern writes gives the pattern: the reader takes the
/// text and finds in it the size, the name and the description written, the rule that the
/// rule's text names, and the grid, each dead cell dead and each live cell of faction 0 in
/// the state of its tag. This holds for a grid within the size limit whose cells all have
/// a tag, with a name and a description that hold no line feed.
pub proof fn law_rle_round_trip(
    name: Option<String>,
    description: Option<String>,
    rule: LifeRule,
    rows: Rows,
    w: int,
    h: int,
)
    requires
        rows_wf(rows, w, h),
        0 <= w <= max_dim(),
        0 <= h <= max_dim(),
        rows_taggable(rule.spec_is_generations(), rows),
        name matches Some(n) ==> lacks(n@, '\n'),
        description matches Some(d) ==> lacks(d@, '\n'),
    ensures
        ({
            let text = rle_body_text(rule.spec_is_generations(), rows, w, h, rle_head(name, description, w, h, rule));
            let ls = split_on(text, '\n');
            let hx = first_plain(ls, 0);
            let fs = rle_fields(text);
            &&& rle_ok(text)
            &&& rle_width(fs) == w
            &&& rle_height(fs) == h
            &&& rle_rule_lut(fs) == rule_lut(rule.spec_to_str())
            &&& rle_name(ls.take(hx)) == opt_view(name)
            &&& rle_description(ls.take(hx)) == opt_view(description)
            &&& apply_writes((dead_rows(w, h), zero_pops()), rle_body((0, 0), ls.skip(hx + 1)).1).0 == read_rows(
                rule.spec_is_generations(),
                rows,
            )
        }),
{
    let generations = rule.spec_is_generations();
    let text = rle_body_text(generations, rows, w, h, rle_head(name, description, w, h, rule));
    let ls = split_on(text, '\n');
    lemma_text_lines(name, description, rule, rows, w, h);
    let hx = first_plain(ls, 0);
    lemma_x_line_fields(w, h, rule);
    assert(rle_fields(text) == x_fields(w, h, rule));
    lemma_x_fields_read(w, h, rule);
    law_rle_body_round_trip(generations, rows, w, h);
    assert(x_line(w, h, rule)[0] == 'x');
}


/// The text is in lines of at most 69 characters, the last of them `lc` long.
pub open spec fn lines_within(out: Seq<char>, lc: int) -> bool {
    let ls = split_on(out, '\n');
    &&& ls.last().len() == lc
    &&& forall|i: int| 0 <= i < ls.len() ==> #[trigger] ls[i].len() <= 69
}

proof fn lemma_item_lines(c: int, t: char, out: Seq<char>, lc: int)
    requires
        lines_within(out, lc),
        1 <= c <= 32767,
        t != '\n',
    ensures
        lines_within(item_write(c, t, out, lc).0, item_write(c, t, out, lc).1),
{
    lemma_split_on_len(out, '\n');
    let cs = decimal(c as nat);
    assert(ten_pow(5) == 100000) by {
        reveal_with_fuel(ten_pow, 6);
    }
    lemma_decimal_bound(c as nat, 5);
    let core = run_text(c, t);
    lemma_decimal_digits(c as nat);
    assert forall|i: int| 0 <= i < core.len() implies #[trigger] core[i] != '\n' by {
        if c > 1 && i < cs.len() {
            assert(core[i] == cs[i]);
            assert(is_digit(cs[i]));
        }
    }
    let newline = if c > 1 {
        lc + cs.len() + 2 >= 71
    } else {
        lc + 1 >= 70
    };
    let o1 = if newline {
        out.push('\n')
    } else {
        out
    };
    let r = item_write(c, t, out, lc);
    if c > 1 {
        assert(r.0 =~= o1 + core);
    } else {
        assert(r.0 =~= o1 + core);
    }
    if newline {
        assert(o1.drop_last() =~= out);
        assert(split_on(o1, '\n') == split_on(out, '\n').push(Seq::<char>::empty()));
    }
    let l1 = split_on(o1, '\n');
    lemma_split_on_len(o1, '\n');
    lemma_split_on_extend(o1, core, '\n');
    let l2 = split_on(o1 + core, '\n');
    assert(l2 == l1.update(l1.len() - 1, l1.last() + core));
    assert forall|i: int| 0 <= i < l2.len() implies #[trigger] l2[i].len() <= 69 by {
        if i < l1.len() - 1 {
            assert(l2[i] == l1[i]);
            if newline {
                assert(l1[i] == split_on(out, '\n')[i]);
            }
        }
    }
}

/// One more tag keeps the writer's lines within 69 characters.
proof fn lemma_writer_step_lines(generations: bool, st: WriterState, p: ((int, int), Seq<(Pos, Cell)>), u: char, w: int, h: int)
    requires
        writer_reads_as(generations, st, p),
        lines_within(st.2, st.1),
        tag_kind_ok(generations, u),
        p.0.0 <= w <= 32767,
        p.0.1 <= h - 1,
        h <= 32767,
    ensures
        lines_within(writer_push(st, u).2, writer_push(st, u).1),
{
    let e = text_read(st.2);
    match st.0 {
        None => {},
        Some(it) => {
            if it.1 != u && !(it.1 == '$' && u == st.3.1) {
                let written = u != '$' || it.1 != st.3.1;
                if written {
                    lemma_item_lines(it.0, it.1, st.2, st.1);
                }
                if st.3.0 > 0 {
                    let w1 = if written {
                        item_write(it.0, it.1, st.2, st.1)
                    } else {
                        (st.2, st.1)
                    };
                    lemma_item_lines(st.3.0, st.3.1, w1.0, w1.1);
                }
            }
        },
    }
}

proof fn lemma_writer_prefix_lines(generations: bool, rows: Rows, w: int, h: int, k: int)
    requires
        rows_wf(rows, w, h),
        0 < w <= 32767,
        0 < h <= 32767,
        rows_taggable(generations, rows),
        0 <= k <= grid_tags(generations, rows, h, w).len(),
    ensures
        lines_within(
            writer_run(writer_start(generations), grid_tags(generations, rows, h, w).take(k)).2,
            writer_run(writer_start(generations), grid_tags(generations, rows, h, w).take(k)).1,
        ),
    decreases k,
{
    let gt = grid_tags(generations, rows, h, w);
    if k == 0 {
        assert(gt.take(0) =~= Seq::<char>::empty());
        assert(split_on(Seq::<char>::empty(), '\n') == seq![Seq::<char>::empty()]);
    } else {
        lemma_writer_prefix_lines(generations, rows, w, h, k - 1);
        lemma_writer_prefix(generations, rows, w, h, k - 1);
        assert(gt.take(k).drop_last() =~= gt.take(k - 1));
        assert(gt.take(k).last() == gt[k - 1]);
        lemma_grid_tags_kind(generations, rows, h, w);
        lemma_prefix_pos(generations, rows, w, h, h, k - 1);
        lemma_writer_step_lines(
            generations,
            writer_run(writer_start(generations), gt.take(k - 1)),
            tag_read((0, 0), gt.take(k - 1)),
            gt[k - 1],
            w,
            h,
        );
    }
}

/// The lines of the RLE body that the writer makes of a grid are at most 70 characters
/// long.
pub proof fn law_rle_lines_within_70(generations: bool, rows: Rows, w: int, h: int)
    requires
        rows_wf(rows, w, h),
        0 <= w <= max_dim(),
        0 <= h <= max_dim(),
        rows_taggable(generations, rows),
    ensures
        ({
            let ls = split_on(rle_body_text(generations, rows, w, h, Seq::empty()), '\n');
            forall|i: int| 0 <= i < ls.len() ==> #[trigger] ls[i].len() <= 70
        }),
{
    let gt = grid_tags(generations, rows, h, w);
    let start = writer_start(generations);
    let text = rle_body_text(generations, rows, w, h, Seq::empty());
    let st = writer_run(start, gt);
    if w == 0 || h == 0 {
        if w == 0 {
            lemma_no_column_tags(generations, rows, h, h);
        }
        assert(split_on(Seq::<char>::empty(), '\n') == seq![Seq::<char>::empty()]);
        assert(lines_within(st.2, st.1));
        lemma_text_read_empty();
    } else {
        assert(gt.take(gt.len() as int) =~= gt);
        lemma_writer_prefix_lines(generations, rows, w, h, gt.len() as int);
        lemma_writer_prefix(generations, rows, w, h, gt.len() as int);
        lemma_prefix_pos(generations, rows, w, h, h, gt.len() as int);
    }
    let p = if w == 0 || h == 0 {
        ((0int, 0int), Seq::<(Pos, Cell)>::empty())
    } else {
        tag_read((0, 0), gt)
    };
    let f = writer_flush(st);
    let lf: int = match st.0 {
        Some(it) => if it.1 != st.3.1 {
            item_write(it.0, it.1, st.2, st.1).1
        } else {
            st.1
        },
        None => st.1,
    };
    match st.0 {
        Some(it) => {
            if it.1 != st.3.1 {
                if w == 0 || h == 0 {
                    assert(false);
                }
                lemma_item_lines(it.0, it.1, st.2, st.1);
            }
        },
        None => {},
    }
    assert(lines_within(f, lf));
    lemma_split_on_len(f, '\n');
    assert(f.push('!') =~= f + seq!['!']);
    lemma_split_on_extend(f, seq!['!'], '\n');
    let l1 = split_on(f, '\n');
    let l2 = split_on(text, '\n');
    assert(l2 == l1.update(l1.len() - 1, l1.last() + seq!['!']));
    assert forall|i: int| 0 <= i < l2.len() implies #[trigger] l2[i].len() <= 70 by {
        if i < l1.len() - 1 {
            assert(l2[i] == l1[i]);
        }
    }
}

} // verus!
