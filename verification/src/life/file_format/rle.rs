use vstd::prelude::*;

use crate::life::algo::basic::max_dim;
use crate::life::algo::dead_rows;
use crate::life::grid::{rows_wf, Rows};
use crate::life::rule::rule_lut;
use crate::life::{
    apply_writes, cell_of, gol_lut, packed, write_step, zero_pops, Cell, Life, LifeAlgoSelect, LifeRule, Pos,
};
use crate::pattern::{Pattern, PatternMetadata};
use crate::text::{
    all_digits, chars_of, digit_value, has_prefix, is_digit, parse_i16, parse_i16_exec, split_by, split_chars,
    split_on, split_once, split_once_by, split_str, starts_with, string_of, tail_from,
};
use crate::life::file_format::plaintext::opt_view;
use crate::life::rule::{rule_text_supported, states_portion_supported};

verus! {

/// A header line: it begins with `#`.
pub open spec fn is_hash_line(l: Seq<char>) -> bool {
    l.len() > 0 && l[0] == '#'
}

/// The first line at or after `i` that is not a header line (or the number of lines).
pub open spec fn first_plain(ls: Seq<Seq<char>>, i: int) -> int
    decreases ls.len() - i,
    when 0 <= i
{
    if i >= ls.len() {
        ls.len() as int
    } else if is_hash_line(ls[i]) {
        first_plain(ls, i + 1)
    } else {
        i
    }
}

pub open spec fn n_prefix() -> Seq<char> {
    seq!['#', 'N', ' ']
}

pub open spec fn c_prefix() -> Seq<char> {
    seq!['#', 'C', ' ']
}

/// The name the `#N ` lines give (the last one wins).
pub open spec fn rle_name(ls: Seq<Seq<char>>) -> Option<Seq<char>>
    decreases ls.len(),
{
    if ls.len() == 0 {
        None
    } else if starts_with(ls.last(), n_prefix()) {
        Some(ls.last().skip(3))
    } else {
        rle_name(ls.drop_last())
    }
}

/// The description the `#C ` lines give (the last one wins).
pub open spec fn rle_description(ls: Seq<Seq<char>>) -> Option<Seq<char>>
    decreases ls.len(),
{
    if ls.len() == 0 {
        None
    } else if starts_with(ls.last(), c_prefix()) {
        Some(ls.last().skip(3))
    } else {
        rle_description(ls.drop_last())
    }
}

pub open spec fn field_sep() -> Seq<char> {
    seq![',', ' ']
}

pub open spec fn value_sep() -> Seq<char> {
    seq![' ', '=', ' ']
}

pub open spec fn rule_word() -> Seq<char> {
    seq!['r', 'u', 'l', 'e']
}

/// A header field the format knows: `x = N`, `y = N` or `rule = R`.
pub open spec fn field_ok(f: Seq<char>) -> bool {
    match split_once(f, value_sep()) {
        Some(nv) => ((nv.0 == seq!['x'] || nv.0 == seq!['y']) && parse_i16(nv.1) is Some) || (nv.0 == rule_word()
            && states_portion_supported(nv.1)),
        None => false,
    }
}

/// The width the fields give (the last `x` wins; 16 without one).
pub open spec fn rle_width(fs: Seq<Seq<char>>) -> i16
    decreases fs.len(),
{
    if fs.len() == 0 {
        16
    } else {
        let nv = split_once(fs.last(), value_sep())->0;
        if nv.0 == seq!['x'] {
            parse_i16(nv.1)->0
        } else {
            rle_width(fs.drop_last())
        }
    }
}

/// The height the fields give (the last `y` wins; 16 without one).
pub open spec fn rle_height(fs: Seq<Seq<char>>) -> i16
    decreases fs.len(),
{
    if fs.len() == 0 {
        16
    } else {
        let nv = split_once(fs.last(), value_sep())->0;
        if nv.0 == seq!['y'] {
            parse_i16(nv.1)->0
        } else {
            rle_height(fs.drop_last())
        }
    }
}

/// The rule tables the fields give (the last `rule` wins; Conway's rule without one).
pub open spec fn rle_rule_lut(fs: Seq<Seq<char>>) -> Seq<u32>
    decreases fs.len(),
{
    if fs.len() == 0 {
        gol_lut()
    } else {
        let nv = split_once(fs.last(), value_sep())->0;
        if nv.0 == rule_word() {
            rule_lut(nv.1)
        } else {
            rle_rule_lut(fs.drop_last())
        }
    }
}

/// A run tag that writes cells: `o` and `A` state 1, `B` state 2, `C` state 3.
pub open spec fn is_fill_tag(c: char) -> bool {
    c == 'o' || c == 'A' || c == 'B' || c == 'C'
}

/// The cell a run tag writes.
pub open spec fn tag_cell(c: char) -> Cell {
    if c == 'B' {
        cell_of(packed(2, 0))
    } else if c == 'C' {
        cell_of(packed(3, 0))
    } else {
        cell_of(packed(1, 0))
    }
}

/// A character of the body: a digit, a run tag, `$` or `!`.
pub open spec fn body_char_ok(c: char) -> bool {
    is_digit(c) || c == 'b' || c == '.' || is_fill_tag(c) || c == '$' || c == '!'
}

/// The scanner's state: position `(x, y)`, the pending run count, and whether `!` ended
/// the line.
pub type RleState = (int, int, int, bool);

/// One character of the body read in state `st`: the next state and the cells written.
pub open spec fn rle_char(st: RleState, c: char) -> (RleState, Seq<(Pos, Cell)>) {
    let x = st.0;
    let y = st.1;
    let run = st.2;
    if st.3 {
        (st, Seq::empty())
    } else if is_digit(c) {
        ((x, y, run * 10 + digit_value(c), false), Seq::empty())
    } else {
        let r = if run == 0 {
            1
        } else {
            run
        };
        if c == 'b' || c == '.' {
            ((x + r, y, 0, false), Seq::empty())
        } else if is_fill_tag(c) {
            ((x + r, y, 0, false), Seq::new(r as nat, |k: int| (Pos { x: (x + k) as i16, y: y as i16 }, tag_cell(c))))
        } else if c == '$' {
            ((0, y + r, 0, false), Seq::empty())
        } else {
            ((x, y, 0, true), Seq::empty())
        }
    }
}

/// Reading `c` in state `st` stays within the ranges the reader works in.
pub open spec fn rle_char_valid(st: RleState, c: char) -> bool {
    let r = if st.2 == 0 {
        1
    } else {
        st.2
    };
    st.3 || (body_char_ok(c) && (is_digit(c) ==> st.2 * 10 + digit_value(c) <= u32::MAX) && (!is_digit(c) ==> (
    r <= 32767 && ((c == 'b' || c == '.' || is_fill_tag(c)) ==> st.0 + r <= 32767) && (c == '$' ==> st.1 + r
        <= 32767))))
}

/// The state after, and the cells written by, the characters of a line read from `st`.
pub open spec fn rle_line(st: RleState, l: Seq<char>) -> (RleState, Seq<(Pos, Cell)>)
    decreases l.len(),
{
    if l.len() == 0 {
        (st, Seq::empty())
    } else {
        let a = rle_line(st, l.drop_last());
        let b = rle_char(a.0, l.last());
        (b.0, a.1 + b.1)
    }
}

/// Every character of the line is read within range.
pub open spec fn rle_line_valid(st: RleState, l: Seq<char>) -> bool
    decreases l.len(),
{
    l.len() == 0 || (rle_line_valid(st, l.drop_last()) && rle_char_valid(rle_line(st, l.drop_last()).0, l.last()))
}

/// The body lines read from position `p`: the final position, the cells written, and
/// whether every line was read within range. The run count starts afresh on each line.
pub open spec fn rle_body(p: (int, int), ls: Seq<Seq<char>>) -> ((int, int), Seq<(Pos, Cell)>, bool)
    decreases ls.len(),
{
    if ls.len() == 0 {
        (p, Seq::empty(), true)
    } else {
        let a = rle_body(p, ls.drop_last());
        let st0: RleState = (a.0.0, a.0.1, 0, false);
        let b = rle_line(st0, ls.last());
        ((b.0.0, b.0.1), a.1 + b.1, a.2 && rle_line_valid(st0, ls.last()))
    }
}

/// The header fields of an RLE text.
pub open spec fn rle_fields(s: Seq<char>) -> Seq<Seq<char>> {
    let ls = split_on(s, '\n');
    split_str(ls[first_plain(ls, 0)], field_sep())
}

/// An RLE text the reader takes: header lines `#N ` and `#C `, then a line `x = ..`
/// whose fields it knows, a size within the grid limit, and a body read within range.
pub open spec fn rle_ok(s: Seq<char>) -> bool {
    let ls = split_on(s, '\n');
    let hx = first_plain(ls, 0);
    let fs = rle_fields(s);
    &&& hx < ls.len()
    &&& ls[hx].len() > 0 && ls[hx][0] == 'x'
    &&& forall|k: int| 0 <= k < hx ==> starts_with(#[trigger] ls[k], n_prefix()) || starts_with(ls[k], c_prefix())
    &&& forall|k: int| 0 <= k < fs.len() ==> field_ok(#[trigger] fs[k])
    &&& 0 <= rle_width(fs) <= max_dim()
    &&& 0 <= rle_height(fs) <= max_dim()
    &&& rle_body((0, 0), ls.skip(hx + 1)).2
}

proof fn lemma_first_plain(ls: Seq<Seq<char>>, i: int)
    requires
        0 <= i <= first_plain(ls, 0),
        forall|k: int| 0 <= k < i ==> is_hash_line(#[trigger] ls[k]),
    ensures
        first_plain(ls, 0) == first_plain(ls, i),
    decreases i,
{
    if i > 0 {
        lemma_first_plain(ls, i - 1);
    }
}

proof fn lemma_first_plain_bound(ls: Seq<Seq<char>>, i: int)
    requires
        0 <= i <= ls.len(),
    ensures
        i <= first_plain(ls, i) <= ls.len(),
        forall|k: int| i <= k < first_plain(ls, i) ==> is_hash_line(#[trigger] ls[k]),
        first_plain(ls, i) < ls.len() ==> !is_hash_line(ls[first_plain(ls, i)]),
    decreases ls.len() - i,
{
    if i < ls.len() && is_hash_line(ls[i]) {
        lemma_first_plain_bound(ls, i + 1);
    }
}

/// The cell a run tag writes.
fn tag_cell_exec(c: char) -> (r: Cell)
    ensures
        r == tag_cell(c),
{
    if c == 'B' {
        Cell::new(2, 0)
    } else if c == 'C' {
        Cell::new(3, 0)
    } else {
        Cell::new(1, 0)
    }
}

/// A line read within range has each of its prefixes read within range.
proof fn lemma_line_valid_prefix(st: RleState, l: Seq<char>, j: int)
    requires
        0 <= j < l.len(),
        rle_line_valid(st, l),
    ensures
        rle_char_valid(rle_line(st, l.take(j)).0, l[j]),
    decreases l.len() - j,
{
    if j == l.len() - 1 {
        assert(l.take(j) =~= l.drop_last());
    } else {
        lemma_line_valid_prefix(st, l.drop_last(), j);
        assert(l.drop_last().take(j) =~= l.take(j));
    }
}

/// A body read within range has each of its prefixes read within range.
proof fn lemma_body_valid_prefix(p: (int, int), ls: Seq<Seq<char>>, i: int)
    requires
        0 <= i <= ls.len(),
        rle_body(p, ls).2,
    ensures
        rle_body(p, ls.take(i)).2,
    decreases ls.len() - i,
{
    if i < ls.len() {
        lemma_body_valid_prefix(p, ls.drop_last(), i);
        assert(ls.drop_last().take(i) =~= ls.take(i));
    } else {
        assert(ls.take(i) =~= ls);
    }
}

/// Reading within range from a position with no negative coordinate keeps it so.
proof fn lemma_line_nonneg(st: RleState, l: Seq<char>)
    requires
        st.0 >= 0,
        st.1 >= 0,
        st.2 >= 0,
    ensures
        rle_line(st, l).0.0 >= 0,
        rle_line(st, l).0.1 >= 0,
        rle_line(st, l).0.2 >= 0,
    decreases l.len(),
{
    if l.len() > 0 {
        lemma_line_nonneg(st, l.drop_last());
    }
}

proof fn lemma_body_nonneg(p: (int, int), ls: Seq<Seq<char>>)
    requires
        p.0 >= 0,
        p.1 >= 0,
    ensures
        rle_body(p, ls).0.0 >= 0,
        rle_body(p, ls).0.1 >= 0,
    decreases ls.len(),
{
    if ls.len() > 0 {
        lemma_body_nonneg(p, ls.drop_last());
        let a = rle_body(p, ls.drop_last());
        lemma_line_nonneg((a.0.0, a.0.1, 0, false), ls.last());
    }
}

/// Read the body lines from `start` on into `life`, writing their cells.
fn rle_parse_body(lines: &Vec<Vec<char>>, start: usize, life: &mut Life)
    requires
        old(life).wf(),
        old(life).kind() == LifeAlgoSelect::Basic,
        start <= lines@.len(),
        rle_body((0, 0), lines@.map_values(|l: Vec<char>| l@).skip(start as int)).2,
    ensures
        final(life).wf(),
        final(life).kind() == LifeAlgoSelect::Basic,
        final(life).spec_size() == old(life).spec_size(),
        final(life).spec_rule() == old(life).spec_rule(),
        final(life).spec_generation() == old(life).spec_generation(),
        (final(life).rows(), final(life).pops_view()) == apply_writes(
            (old(life).rows(), old(life).pops_view()),
            rle_body((0, 0), lines@.map_values(|l: Vec<char>| l@).skip(start as int)).1,
        ),
{
    let ghost ls = lines@.map_values(|l: Vec<char>| l@).skip(start as int);
    let ghost init = (life.rows(), life.pops_view());
    let mut x: i16 = 0;
    let mut y: i16 = 0;
    let mut li: usize = start;
    proof {
        assert(ls.take(0) =~= Seq::<Seq<char>>::empty());
    }
    while li < lines.len()
        invariant
            start <= li <= lines@.len(),
            ls == lines@.map_values(|l: Vec<char>| l@).skip(start as int),
            rle_body((0, 0), ls).2,
            rle_body((0, 0), ls.take(li - start)).0 == (x as int, y as int),
            x >= 0,
            y >= 0,
            life.wf(),
            life.kind() == LifeAlgoSelect::Basic,
            life.spec_size() == old(life).spec_size(),
            life.spec_rule() == old(life).spec_rule(),
            life.spec_generation() == old(life).spec_generation(),
            init == (old(life).rows(), old(life).pops_view()),
            (life.rows(), life.pops_view()) == apply_writes(init, rle_body((0, 0), ls.take(li - start)).1),
        decreases lines.len() - li,
    {
        let line = &lines[li];
        let ghost l = line@;
        let ghost st0: RleState = (x as int, y as int, 0, false);
        let ghost wprev = rle_body((0, 0), ls.take(li - start)).1;
        proof {
            assert(ls[li - start] == l);
            assert(ls.take(li - start + 1).drop_last() =~= ls.take(li - start));
            lemma_body_valid_prefix((0, 0), ls, li - start + 1);
            assert(l.take(0) =~= Seq::<char>::empty());
            assert(wprev + Seq::<(Pos, Cell)>::empty() =~= wprev);
        }
        let mut run: u32 = 0;
        let mut stop = false;
        let mut j: usize = 0;
        while j < line.len()
            invariant
                line@ == l,
                j <= line.len(),
                rle_line_valid(st0, l),
                rle_line(st0, l.take(j as int)).0 == (x as int, y as int, run as int, stop),
                x >= 0,
                y >= 0,
                life.wf(),
                life.kind() == LifeAlgoSelect::Basic,
                life.spec_size() == old(life).spec_size(),
                life.spec_rule() == old(life).spec_rule(),
                life.spec_generation() == old(life).spec_generation(),
                (life.rows(), life.pops_view()) == apply_writes(init, wprev + rle_line(st0, l.take(j as int)).1),
            decreases line.len() - j,
        {
            let c = line[j];
            let ghost before = rle_line(st0, l.take(j as int));
            proof {
                lemma_line_valid_prefix(st0, l, j as int);
                assert(l.take(j + 1).drop_last() =~= l.take(j as int));
                assert(l[j as int] == c);
            }
            if !stop {
                if '0' <= c && c <= '9' {
                    run = run * 10 + ((c as u32) - 48);
                    proof {
                        assert(wprev + before.1 + Seq::<(Pos, Cell)>::empty() =~= wprev + before.1);
                    }
                } else {
                    if run == 0 {
                        run = 1;
                    }
                    if c == 'b' || c == '.' {
                        x = x + (run as i16);
                        proof {
                            assert(wprev + before.1 + Seq::<(Pos, Cell)>::empty() =~= wprev + before.1);
                        }
                    } else if c == 'o' || c == 'A' || c == 'B' || c == 'C' {
                        let cell = tag_cell_exec(c);
                        let ghost x0 = x as int;
                        let ghost r = run as int;
                        let ghost fill = Seq::new(r as nat, |k: int| (Pos { x: (x0 + k) as i16, y: y as i16 }, tag_cell(c)));
                        let mut k: u32 = 0;
                        proof {
                            assert(fill.take(0) =~= Seq::<(Pos, Cell)>::empty());
                            assert(wprev + before.1 + fill.take(0) =~= wprev + before.1);
                        }
                        while k < run
                            invariant
                                k <= run,
                                r == run,
                                x == x0 + k,
                                x0 >= 0,
                                x0 + r <= 32767,
                                y >= 0,
                                cell == tag_cell(c),
                                fill == Seq::new(r as nat, |kk: int| (Pos { x: (x0 + kk) as i16, y: y as i16 }, tag_cell(c))),
                                life.wf(),
                                life.kind() == LifeAlgoSelect::Basic,
                                life.spec_size() == old(life).spec_size(),
                                life.spec_rule() == old(life).spec_rule(),
                                life.spec_generation() == old(life).spec_generation(),
                                (life.rows(), life.pops_view()) == apply_writes(init, wprev + before.1 + fill.take(k as int)),
                            decreases run - k,
                        {
                            life.insert(Pos { x, y }, cell);
                            proof {
                                let ws = wprev + before.1 + fill.take(k + 1);
                                assert(ws.drop_last() =~= wprev + before.1 + fill.take(k as int));
                                assert(ws.last() == (Pos { x, y }, cell));
                            }
                            x = x + 1;
                            k = k + 1;
                        }
                        proof {
                            assert(fill.take(r) =~= fill);
                        }
                    } else if c == '$' {
                        y = y + (run as i16);
                        x = 0;
                        proof {
                            assert(wprev + before.1 + Seq::<(Pos, Cell)>::empty() =~= wprev + before.1);
                        }
                    } else {
                        stop = true;
                        proof {
                            assert(wprev + before.1 + Seq::<(Pos, Cell)>::empty() =~= wprev + before.1);
                        }
                    }
                    run = 0;
                }
            } else {
                proof {
                    assert(wprev + before.1 + Seq::<(Pos, Cell)>::empty() =~= wprev + before.1);
                }
            }
            proof {
                assert(wprev + rle_line(st0, l.take(j + 1)).1 =~= wprev + before.1 + rle_char(before.0, c).1);
            }
            j = j + 1;
        }
        proof {
            assert(l.take(line.len() as int) =~= l);
            let b = rle_body((0, 0), ls.take(li - start + 1));
            assert(b.1 =~= wprev + rle_line(st0, l).1);
        }
        li = li + 1;
    }
    proof {
        assert(ls.take(lines.len() - start) =~= ls);
    }
}


/// Whether `v` is the one-character word `c`.
fn is_word1(v: &Vec<char>, c: char) -> (r: bool)
    ensures
        r == (v@ == seq![c]),
{
    let r = v.len() == 1 && v[0] == c;
    proof {
        if v.len() == 1 && v[0] == c {
            assert(v@ =~= seq![c]);
        }
    }
    r
}

/// Whether `v` is `rule`.
fn is_rule_word(v: &Vec<char>) -> (r: bool)
    ensures
        r == (v@ == rule_word()),
{
    let r = v.len() == 4 && v[0] == 'r' && v[1] == 'u' && v[2] == 'l' && v[3] == 'e';
    proof {
        if r {
            assert(v@ =~= rule_word());
        }
    }
    r
}

/// Read the header: the `#N ` and `#C ` lines, then the `x = ..` line; gives the pattern
/// it describes (an empty basic grid) and the index of the first body line.
fn rle_parse_header(lines: &Vec<Vec<char>>) -> (r: (Pattern, usize))
    requires
        ({
            let ls = lines@.map_values(|l: Vec<char>| l@);
            let hx = first_plain(ls, 0);
            let fs = split_str(ls[hx], field_sep());
            &&& hx < ls.len()
            &&& ls[hx].len() > 0 && ls[hx][0] == 'x'
            &&& forall|k: int| 0 <= k < hx ==> starts_with(#[trigger] ls[k], n_prefix()) || starts_with(ls[k], c_prefix())
            &&& forall|k: int| 0 <= k < fs.len() ==> field_ok(#[trigger] fs[k])
            &&& 0 <= rle_width(fs) <= max_dim()
            &&& 0 <= rle_height(fs) <= max_dim()
        }),
    ensures
        ({
            let ls = lines@.map_values(|l: Vec<char>| l@);
            let hx = first_plain(ls, 0);
            let fs = split_str(ls[hx], field_sep());
            let size = Pos { x: rle_width(fs), y: rle_height(fs) };
            &&& r.1 == hx + 1
            &&& r.0.life.is_fresh(LifeAlgoSelect::Basic, size, r.0.life.spec_rule())
            &&& r.0.life.spec_rule().spec_lut() == rle_rule_lut(fs)
            &&& opt_view(r.0.metadata.name) == rle_name(ls.take(hx))
            &&& opt_view(r.0.metadata.description) == rle_description(ls.take(hx))
            &&& r.0.metadata.classification is None
            &&& r.0.metadata.period_or_pop_or_lifespan is None
        }),
{
    let ghost ls = lines@.map_values(|l: Vec<char>| l@);
    let ghost hx = first_plain(ls, 0);
    let mut metadata = PatternMetadata::default();
    let mut np: Vec<char> = Vec::new();
    np.push('#');
    np.push('N');
    np.push(' ');
    let mut cp: Vec<char> = Vec::new();
    cp.push('#');
    cp.push('C');
    cp.push(' ');
    assert(np@ =~= n_prefix());
    assert(cp@ =~= c_prefix());
    proof {
        lemma_first_plain_bound(ls, 0);
        assert(ls.take(0) =~= Seq::<Seq<char>>::empty());
    }
    let mut i: usize = 0;
    while i < lines.len() && lines[i].len() > 0 && lines[i][0] == '#'
        invariant
            ls == lines@.map_values(|l: Vec<char>| l@),
            hx == first_plain(ls, 0),
            hx < ls.len(),
            i <= hx,
            forall|k: int| 0 <= k < hx ==> is_hash_line(#[trigger] ls[k]),
            !is_hash_line(ls[hx]),
            forall|k: int| 0 <= k < hx ==> starts_with(#[trigger] ls[k], n_prefix()) || starts_with(ls[k], c_prefix()),
            np@ == n_prefix(),
            cp@ == c_prefix(),
            opt_view(metadata.name) == rle_name(ls.take(i as int)),
            opt_view(metadata.description) == rle_description(ls.take(i as int)),
            metadata.classification is None,
            metadata.period_or_pop_or_lifespan is None,
        decreases lines.len() - i,
    {
        let line = &lines[i];
        proof {
            assert(ls[i as int] == line@);
            assert(i < hx);
            assert(ls.take(i + 1).drop_last() =~= ls.take(i as int));
            assert(ls.take(i + 1).last() == ls[i as int]);
        }
        if has_prefix(line, &np) {
            let rest = tail_from(line, 3);
            metadata.name = Some(string_of(&rest));
            proof {
                assert(!starts_with(line@, c_prefix())) by {
                    assert(line@.take(3)[1] != c_prefix()[1]);
                }
            }
        } else {
            let rest = tail_from(line, 3);
            metadata.description = Some(string_of(&rest));
        }
        i = i + 1;
    }
    proof {
        if i < hx {
            assert(is_hash_line(ls[i as int]));
            assert(ls[i as int] == lines@[i as int]@);
        }
    }
    let head = &lines[i];
    let mut sep: Vec<char> = Vec::new();
    sep.push(',');
    sep.push(' ');
    let mut eq: Vec<char> = Vec::new();
    eq.push(' ');
    eq.push('=');
    eq.push(' ');
    assert(sep@ =~= field_sep());
    assert(eq@ =~= value_sep());
    let fields = split_by(head, &sep);
    let ghost fs = split_str(ls[hx], field_sep());
    proof {
        assert(head@ == ls[hx]);
        assert(fs.take(0) =~= Seq::<Seq<char>>::empty());
    }
    let mut w: i16 = 16;
    let mut h: i16 = 16;
    let mut rule = LifeRule::gol();
    let mut k: usize = 0;
    while k < fields.len()
        invariant
            fields@.len() == fs.len(),
            forall|j: int| 0 <= j < fields@.len() ==> (#[trigger] fields@[j])@ == fs[j],
            forall|j: int| 0 <= j < fs.len() ==> field_ok(#[trigger] fs[j]),
            eq@ == value_sep(),
            k <= fields.len(),
            w == rle_width(fs.take(k as int)),
            h == rle_height(fs.take(k as int)),
            rule.spec_lut() == rle_rule_lut(fs.take(k as int)),
        decreases fields.len() - k,
    {
        let field = &fields[k];
        proof {
            assert(fs.take(k + 1).drop_last() =~= fs.take(k as int));
            assert(fs.take(k + 1).last() == fs[k as int]);
            assert(field_ok(fs[k as int]));
        }
        match split_once_by(field, &eq) {
            Some(nv) => {
                let (name, value) = nv;
                if is_word1(&name, 'x') {
                    proof {
                        assert(name@ != seq!['y']) by {
                            assert(name@[0] == 'x');
                            assert(seq!['y'][0] == 'y');
                        }
                    }
                    match parse_i16_exec(&value) {
                        Some(v) => {
                            w = v;
                        },
                        None => {},
                    }
                } else if is_word1(&name, 'y') {
                    proof {
                        assert(name@ != seq!['x']) by {
                            assert(name@[0] == 'y');
                            assert(seq!['x'][0] == 'x');
                        }
                    }
                    match parse_i16_exec(&value) {
                        Some(v) => {
                            h = v;
                        },
                        None => {},
                    }
                } else {
                    let text = string_of(&value);
                    rule = LifeRule::from_str(text.as_str());
                    proof {
                        assert(name@ == rule_word());
                    }
                }
            },
            None => {},
        }
        k = k + 1;
    }
    proof {
        assert(fs.take(fields.len() as int) =~= fs);
    }
    let size = Pos { x: w, y: h };
    let life = Life::new_rule(size, rule);
    (Pattern { life, metadata }, i + 1)
}

/// A header the reader takes: `#N ` and `#C ` lines, then a line `x = ..` whose fields it
/// knows, giving a size within the grid limit.
pub open spec fn rle_header_ok(ls: Seq<Seq<char>>) -> bool {
    let hx = first_plain(ls, 0);
    let fs = split_str(ls[hx], field_sep());
    &&& hx < ls.len()
    &&& ls[hx].len() > 0 && ls[hx][0] == 'x'
    &&& forall|k: int| 0 <= k < hx ==> starts_with(#[trigger] ls[k], n_prefix()) || starts_with(ls[k], c_prefix())
    &&& forall|k: int| 0 <= k < fs.len() ==> field_ok(#[trigger] fs[k])
    &&& 0 <= rle_width(fs) <= max_dim()
    &&& 0 <= rle_height(fs) <= max_dim()
}

/// Whether the header of `lines` is one the reader takes; if so, the index of its
/// `x = ..` line.
fn rle_check_header(lines: &Vec<Vec<char>>) -> (r: Option<usize>)
    ensures
        r is Some <==> rle_header_ok(lines@.map_values(|l: Vec<char>| l@)),
        r matches Some(i) ==> i == first_plain(lines@.map_values(|l: Vec<char>| l@), 0),
{
    let ghost ls = lines@.map_values(|l: Vec<char>| l@);
    let mut np: Vec<char> = Vec::new();
    np.push('#');
    np.push('N');
    np.push(' ');
    let mut cp: Vec<char> = Vec::new();
    cp.push('#');
    cp.push('C');
    cp.push(' ');
    assert(np@ =~= n_prefix());
    assert(cp@ =~= c_prefix());
    let mut i: usize = 0;
    while i < lines.len() && lines[i].len() > 0 && lines[i][0] == '#'
        invariant
            ls == lines@.map_values(|l: Vec<char>| l@),
            i <= lines.len(),
            first_plain(ls, 0) == first_plain(ls, i as int),
            forall|k: int| 0 <= k < i ==> starts_with(#[trigger] ls[k], n_prefix()) || starts_with(ls[k], c_prefix()),
            np@ == n_prefix(),
            cp@ == c_prefix(),
        decreases lines.len() - i,
    {
        let line = &lines[i];
        proof {
            assert(ls[i as int] == line@);
            assert(is_hash_line(ls[i as int]));
        }
        if !(has_prefix(line, &np) || has_prefix(line, &cp)) {
            proof {
                lemma_first_plain_bound(ls, i as int);
                lemma_first_plain_bound(ls, 0);
            }
            return None;
        }
        i = i + 1;
    }
    proof {
        lemma_first_plain_bound(ls, 0);
    }
    if i >= lines.len() {
        return None;
    }
    proof {
        assert(ls[i as int] == lines@[i as int]@);
        assert(first_plain(ls, i as int) == i);
    }
    let head = &lines[i];
    if !(head.len() > 0 && head[0] == 'x') {
        return None;
    }
    let mut sep: Vec<char> = Vec::new();
    sep.push(',');
    sep.push(' ');
    let mut eq: Vec<char> = Vec::new();
    eq.push(' ');
    eq.push('=');
    eq.push(' ');
    assert(sep@ =~= field_sep());
    assert(eq@ =~= value_sep());
    let fields = split_by(head, &sep);
    let ghost fs = split_str(ls[i as int], field_sep());
    proof {
        assert(head@ == ls[i as int]);
        assert(fs.take(0) =~= Seq::<Seq<char>>::empty());
    }
    let mut w: i16 = 16;
    let mut h: i16 = 16;
    let mut k: usize = 0;
    while k < fields.len()
        invariant
            fields@.len() == fs.len(),
            forall|j: int| 0 <= j < fields@.len() ==> (#[trigger] fields@[j])@ == fs[j],
            forall|j: int| 0 <= j < k ==> field_ok(#[trigger] fs[j]),
            eq@ == value_sep(),
            k <= fields.len(),
            w == rle_width(fs.take(k as int)),
            h == rle_height(fs.take(k as int)),
            ls == lines@.map_values(|l: Vec<char>| l@),
            first_plain(ls, 0) == i,
            fs == split_str(ls[first_plain(ls, 0)], field_sep()),
        decreases fields.len() - k,
    {
        let field = &fields[k];
        proof {
            assert(fs.take(k + 1).drop_last() =~= fs.take(k as int));
            assert(fs.take(k + 1).last() == fs[k as int]);
            assert(field@ == fs[k as int]);
        }
        match split_once_by(field, &eq) {
            Some(nv) => {
                let (name, value) = nv;
                if is_word1(&name, 'x') {
                    proof {
                        assert(name@ != seq!['y']) by {
                            assert(name@[0] == 'x');
                            assert(seq!['y'][0] == 'y');
                        }
                        assert(name@ != rule_word()) by {
                            assert(rule_word().len() != 1);
                        }
                    }
                    match parse_i16_exec(&value) {
                        Some(v) => {
                            w = v;
                        },
                        None => {
                            proof {
                                assert(!field_ok(fs[k as int]));
                            }
                            return None;
                        },
                    }
                } else if is_word1(&name, 'y') {
                    proof {
                        assert(name@ != seq!['x']) by {
                            assert(name@[0] == 'y');
                            assert(seq!['x'][0] == 'x');
                        }
                        assert(name@ != rule_word()) by {
                            assert(rule_word().len() != 1);
                        }
                    }
                    match parse_i16_exec(&value) {
                        Some(v) => {
                            h = v;
                        },
                        None => {
                            proof {
                                assert(!field_ok(fs[k as int]));
                            }
                            return None;
                        },
                    }
                } else if is_rule_word(&name) && rule_text_supported(&value) {
                } else {
                    return None;
                }
            },
            None => {
                return None;
            },
        }
        k = k + 1;
    }
    proof {
        assert(fs.take(fields.len() as int) =~= fs);
    }
    if w < 0 || w > 32765 || h < 0 || h > 32765 {
        return None;
    }
    Some(i)
}

proof fn lemma_line_valid_take(st: RleState, l: Seq<char>, j: int)
    requires
        0 <= j <= l.len(),
        rle_line_valid(st, l),
    ensures
        rle_line_valid(st, l.take(j)),
    decreases l.len() - j,
{
    if j < l.len() {
        lemma_line_valid_take(st, l.drop_last(), j);
        assert(l.drop_last().take(j) =~= l.take(j));
    } else {
        assert(l.take(j) =~= l);
    }
}

/// Whether the body lines of `lines` from `start` on are read within range.
fn rle_check_body(lines: &Vec<Vec<char>>, start: usize) -> (r: bool)
    requires
        start <= lines@.len(),
    ensures
        r == rle_body((0, 0), lines@.map_values(|l: Vec<char>| l@).skip(start as int)).2,
{
    let ghost ls = lines@.map_values(|l: Vec<char>| l@).skip(start as int);
    let mut x: u64 = 0;
    let mut y: u64 = 0;
    let mut li: usize = start;
    proof {
        assert(ls.take(0) =~= Seq::<Seq<char>>::empty());
    }
    while li < lines.len()
        invariant
            start <= li <= lines@.len(),
            ls == lines@.map_values(|l: Vec<char>| l@).skip(start as int),
            rle_body((0, 0), ls.take(li - start)).2,
            rle_body((0, 0), ls.take(li - start)).0 == (x as int, y as int),
            x <= 32767,
            y <= 32767,
        decreases lines.len() - li,
    {
        let line = &lines[li];
        let ghost l = line@;
        let ghost st0: RleState = (x as int, y as int, 0, false);
        proof {
            assert(ls[li - start] == l);
            assert(ls.take(li - start + 1).drop_last() =~= ls.take(li - start));
            assert(ls.take(li - start + 1).last() == l);
            assert(l.take(0) =~= Seq::<char>::empty());
        }
        let mut run: u64 = 0;
        let mut stop = false;
        let mut j: usize = 0;
        while j < line.len()
            invariant
                line@ == l,
                j <= line.len(),
                rle_line_valid(st0, l.take(j as int)),
                rle_line(st0, l.take(j as int)).0 == (x as int, y as int, run as int, stop),
                x <= 32767,
                y <= 32767,
                run <= u32::MAX,
                start <= li < lines@.len(),
                ls == lines@.map_values(|l: Vec<char>| l@).skip(start as int),
                ls.take(li - start + 1).drop_last() == ls.take(li - start),
                ls.take(li - start + 1).last() == l,
                rle_body((0, 0), ls.take(li - start)).2,
                rle_body((0, 0), ls.take(li - start)).0 == (st0.0, st0.1),
                st0.2 == 0,
                !st0.3,
            decreases line.len() - j,
        {
            let c = line[j];
            let ghost before = rle_line(st0, l.take(j as int));
            proof {
                assert(l.take(j + 1).drop_last() =~= l.take(j as int));
                assert(l.take(j + 1).last() == c);
            }
            let mut ok = true;
            if !stop {
                if '0' <= c && c <= '9' {
                    let d = (c as u32 - 48) as u64;
                    if run * 10 + d > 4294967295 {
                        ok = false;
                    } else {
                        run = run * 10 + d;
                    }
                } else {
                    let r: u64 = if run == 0 {
                        1
                    } else {
                        run
                    };
                    if r > 32767 {
                        ok = false;
                    } else if c == 'b' || c == '.' || c == 'o' || c == 'A' || c == 'B' || c == 'C' {
                        if x + r > 32767 {
                            ok = false;
                        } else {
                            x = x + r;
                        }
                    } else if c == '$' {
                        if y + r > 32767 {
                            ok = false;
                        } else {
                            y = y + r;
                            x = 0;
                        }
                    } else if c == '!' {
                        stop = true;
                    } else {
                        ok = false;
                    }
                    run = 0;
                }
            }
            if !ok {
                proof {
                    assert(!rle_char_valid(before.0, c));
                    assert(!rle_line_valid(st0, l.take(j + 1)));
                    if rle_line_valid(st0, l) {
                        lemma_line_valid_take(st0, l, j + 1);
                    }
                    assert(!rle_body((0, 0), ls.take(li - start + 1)).2);
                    if rle_body((0, 0), ls).2 {
                        lemma_body_valid_prefix((0, 0), ls, li - start + 1);
                    }
                }
                return false;
            }
            j = j + 1;
        }
        proof {
            assert(l.take(line.len() as int) =~= l);
        }
        li = li + 1;
    }
    proof {
        assert(ls.take(lines.len() - start) =~= ls);
    }
    true
}

/// Whether the RLE reader takes `rle`: `from_rle` may be called on it exactly when this
/// holds.
pub fn rle_readable(rle: &str) -> (r: bool)
    ensures
        r == rle_ok(rle@),
{
    let cs = chars_of(rle);
    let lines = split_chars(&cs, '\n');
    let ghost ls = split_on(rle@, '\n');
    proof {
        assert(lines@.map_values(|l: Vec<char>| l@) =~= ls);
    }
    match rle_check_header(&lines) {
        Some(hx) => {
            proof {
                assert(rle_fields(rle@) == split_str(ls[hx as int], field_sep()));
            }
            rle_check_body(&lines, hx + 1)
        },
        None => false,
    }
}

/// The pattern `from_rle` reads from the text `s`: the size, rule and cells of the body,
/// the name and description of the `#N` and `#C` lines.
pub open spec fn rle_pattern(s: Seq<char>, p: Pattern) -> bool {
    let ls = split_on(s, '\n');
    let hx = first_plain(ls, 0);
    let fs = rle_fields(s);
    let size = Pos { x: rle_width(fs), y: rle_height(fs) };
    &&& p.life.wf()
    &&& p.life.kind() == LifeAlgoSelect::Basic
    &&& p.life.spec_size() == size
    &&& p.life.spec_rule().spec_lut() == rle_rule_lut(fs)
    &&& p.life.spec_generation() == 0
    &&& (p.life.rows(), p.life.pops_view()) == apply_writes(
        (dead_rows(size.x as int, size.y as int), zero_pops()),
        rle_body((0, 0), ls.skip(hx + 1)).1,
    )
    &&& opt_view(p.metadata.name) == rle_name(ls.take(hx))
    &&& opt_view(p.metadata.description) == rle_description(ls.take(hx))
    &&& p.metadata.classification is None
    &&& p.metadata.period_or_pop_or_lifespan is None
}

impl Pattern {
    /// A pattern from Run Length Encoded text (<https://conwaylife.com/wiki/Run_Length_Encoded>):
    /// `#N` and `#C` header lines give the name and description, the `x = .., y = .., rule
    /// = ..` line the size and rule, and the body lines the cells: runs of `b` or `.`
    /// (dead), `o` or `A`, `B`, `C` (states 1 to 3), `$` (next row) up to `!`.
    pub fn from_rle(rle: &str) -> (p: Pattern)
        requires
            rle_ok(rle@),
        ensures
            rle_pattern(rle@, p),
    {
        let cs = chars_of(rle);
        let lines = split_chars(&cs, '\n');
        proof {
            assert(lines@.map_values(|l: Vec<char>| l@) =~= split_on(rle@, '\n'));
        }
        let (mut pattern, start) = rle_parse_header(&lines);
        rle_parse_body(&lines, start, &mut pattern.life);
        pattern
    }
}


/// The tag of a state outside a Generations rule.
pub open spec fn rle_tag(state: u8) -> char {
    if state == 0 {
        'b'
    } else {
        'o'
    }
}

/// The tag of a state under a Generations rule.
pub open spec fn rle_tag_generations(state: u8) -> char {
    if state == 0 {
        '.'
    } else if state == 1 {
        'A'
    } else if state == 2 {
        'B'
    } else {
        'C'
    }
}

/// The tag a cell is written with.
pub open spec fn cell_tag(generations: bool, c: Cell) -> char {
    if generations {
        rle_tag_generations(c.spec_state())
    } else {
        rle_tag(c.spec_state())
    }
}

/// Every cell has a tag: states 0 and 1, or up to 3 under a Generations rule.
pub open spec fn rows_taggable(generations: bool, rows: Rows) -> bool {
    forall|y: int, x: int|
        0 <= y < rows.len() && 0 <= x < rows[y].len() ==> (#[trigger] rows[y][x]).spec_state() <= (if generations {
            3int
        } else {
            1int
        })
}

/// The tags of a row.
pub open spec fn row_tags(generations: bool, row: Seq<Cell>) -> Seq<char> {
    row.map_values(|c: Cell| cell_tag(generations, c))
}

/// The tags of the first `n` rows of a grid `w` wide: each row's tags, with `$` before
/// every row but the first (a grid with no columns has no tags).
pub open spec fn grid_tags(generations: bool, rows: Rows, n: int, w: int) -> Seq<char>
    decreases n,
{
    if n <= 0 {
        Seq::empty()
    } else {
        grid_tags(generations, rows, n - 1, w) + (if n > 1 && w > 0 {
            seq!['$']
        } else {
            Seq::empty()
        }) + row_tags(generations, rows[n - 1])
    }
}

/// The writer's state: the pending run `(count, tag)`, the length of the current output
/// line, the output, and the pending run of dead cells.
pub type WriterState = (Option<(int, char)>, int, Seq<char>, (int, char));

/// A run written out: the count (when above one) and the tag, on a new line when the
/// current one would grow past 70 characters.
pub open spec fn item_write(count: int, tag: char, out: Seq<char>, lc: int) -> (Seq<char>, int) {
    if count > 1 {
        let cs = crate::text::decimal(count as nat);
        let o1 = if lc + cs.len() + 2 >= 71 {
            out.push('\n')
        } else {
            out
        };
        let l1 = if lc + cs.len() + 2 >= 71 {
            0
        } else {
            lc
        };
        (o1 + cs + seq![tag], l1 + cs.len() + 1)
    } else {
        let o1 = if lc + 1 >= 70 {
            out.push('\n')
        } else {
            out
        };
        let l1 = if lc + 1 >= 70 {
            0
        } else {
            lc
        };
        (o1.push(tag), l1 + 1)
    }
}

/// One tag given to the writer. Runs of one tag are merged; dead cells before a `$` are
/// dropped; dead cells after a `$` wait until a live tag shows they are needed.
pub open spec fn writer_push(st: WriterState, tag: char) -> WriterState {
    let lc = st.1;
    let out = st.2;
    let dead = st.3;
    match st.0 {
        Some(it) => if it.1 != tag {
            if it.1 == '$' && tag == dead.1 {
                (st.0, lc, out, (dead.0 + 1, dead.1))
            } else {
                let w1 = if tag != '$' || it.1 != dead.1 {
                    item_write(it.0, it.1, out, lc)
                } else {
                    (out, lc)
                };
                if dead.0 > 0 {
                    let w2 = item_write(dead.0, dead.1, w1.0, w1.1);
                    (Some((1, tag)), w2.1, w2.0, (0, dead.1))
                } else {
                    (Some((1, tag)), w1.1, w1.0, dead)
                }
            }
        } else {
            (
                Some((it.0 + 1, it.1)),
                lc,
                out,
                if tag == '$' {
                    (0, dead.1)
                } else {
                    dead
                },
            )
        },
        None => (Some((1, tag)), lc, out, dead),
    }
}

/// The tags given to the writer, in order.
pub open spec fn writer_run(st: WriterState, tags: Seq<char>) -> WriterState
    decreases tags.len(),
{
    if tags.len() == 0 {
        st
    } else {
        writer_push(writer_run(st, tags.drop_last()), tags.last())
    }
}

/// The output once the pending run is written (unless it is of dead cells).
pub open spec fn writer_flush(st: WriterState) -> Seq<char> {
    match st.0 {
        Some(it) => if it.1 != st.3.1 {
            item_write(it.0, it.1, st.2, st.1).0
        } else {
            st.2
        },
        None => st.2,
    }
}

/// The RLE body of a grid: the tags of its cells through the writer, then `!`.
pub open spec fn rle_body_text(generations: bool, rows: Rows, w: int, h: int, head: Seq<char>) -> Seq<char> {
    let dead_tag = if generations {
        '.'
    } else {
        'b'
    };
    writer_flush(writer_run((None, 0, head, (0, dead_tag)), grid_tags(generations, rows, h, w))).push('!')
}

struct RleItem {
    count: i32,
    tag: char,
}

struct RleWriter {
    item: Option<RleItem>,
    line_count: usize,
    string: String,
    dead: RleItem,
}

impl RleWriter {
    spec fn state(&self) -> WriterState {
        (
            match self.item {
                Some(it) => Some((it.count as int, it.tag)),
                None => None,
            },
            self.line_count as int,
            self.string@,
            (self.dead.count as int, self.dead.tag),
        )
    }

    /// The counts stay within the number of tags given (`k`) and the line below 71.
    spec fn bounded(&self, k: int) -> bool {
        &&& self.line_count < 71
        &&& 0 <= self.dead.count <= k
        &&& match self.item {
            Some(it) => 1 <= it.count <= k,
            None => k == 0,
        }
    }
}

impl RleItem {
    /// Write the run: the count (when above one) and the tag, starting a new line first
    /// when the line would reach 71 characters.
    fn write(&self, string: &mut String, line_count: &mut usize)
        requires
            self.count >= 0,
            *old(line_count) < 71,
        ensures
            (final(string)@, *final(line_count) as int) == item_write(
                self.count as int,
                self.tag,
                old(string)@,
                *old(line_count) as int,
            ),
            *final(line_count) < 71,
    {
        let count = self.count;
        let tag = self.tag;
        if count > 1 {
            let cs = crate::text::decimal_chars(count as u64);
            proof {
                crate::text::lemma_decimal_len(count as nat);
            }
            if *line_count + cs.len() + 2 >= 71 {
                crate::text::push_char(string, '\n');
                *line_count = 0;
            }
            *line_count = *line_count + cs.len();
            crate::text::push_chars(string, &cs);
        } else {
            if *line_count + 1 >= 70 {
                crate::text::push_char(string, '\n');
                *line_count = 0;
            }
        }
        crate::text::push_char(string, tag);
        *line_count = *line_count + 1;
    }
}

impl RleWriter {
    fn push(&mut self, tag: char, Ghost(k): Ghost<int>)
        requires
            old(self).bounded(k),
            0 <= k < 2_000_000_000,
        ensures
            final(self).state() == writer_push(old(self).state(), tag),
            final(self).bounded(k + 1),
            final(self).dead.tag == old(self).dead.tag,
    {
        match &mut self.item {
            Some(item) => {
                if item.tag != tag {
                    if item.tag == '$' && tag == self.dead.tag {
                        self.dead.count = self.dead.count + 1;
                    } else {
                        if tag != '$' || item.tag != self.dead.tag {
                            item.write(&mut self.string, &mut self.line_count);
                        }
                        self.item = Some(RleItem { tag, count: 1 });
                        if self.dead.count > 0 {
                            self.dead.write(&mut self.string, &mut self.line_count);
                            self.dead.count = 0;
                        }
                    }
                } else {
                    if tag == '$' {
                        self.dead.count = 0;
                    }
                    item.count = item.count + 1;
                }
            },
            None => {
                self.item = Some(RleItem { tag, count: 1 });
            },
        }
    }

    fn flush(&mut self)
        requires
            old(self).line_count < 71,
            old(self).item matches Some(it) ==> it.count >= 0,
        ensures
            final(self).string@ == writer_flush(old(self).state()),
    {
        match &self.item {
            Some(item) => {
                if item.tag != self.dead.tag {
                    item.write(&mut self.string, &mut self.line_count);
                }
            },
            None => {},
        }
    }
}


/// The tag of a cell.
fn cell_tag_exec(generations: bool, c: Cell) -> (t: char)
    requires
        c.spec_state() <= (if generations {
            3int
        } else {
            1int
        }),
    ensures
        t == cell_tag(generations, c),
{
    let st = c.get_state();
    if generations {
        if st == 0 {
            '.'
        } else if st == 1 {
            'A'
        } else if st == 2 {
            'B'
        } else {
            'C'
        }
    } else {
        if st == 0 {
            'b'
        } else {
            'o'
        }
    }
}

/// The header lines of an RLE text: `#N name`, `#C description`, then the size and rule.
pub open spec fn rle_head(name: Option<String>, description: Option<String>, w: int, h: int, rule: LifeRule) -> Seq<
    char,
> {
    (match name {
        Some(n) => n_prefix() + n@ + seq!['\n'],
        None => Seq::<char>::empty(),
    }) + (match description {
        Some(d) => c_prefix() + d@ + seq!['\n'],
        None => Seq::<char>::empty(),
    }) + seq!['x', ' ', '=', ' '] + crate::text::decimal(w as nat) + seq![',', ' ', 'y', ' ', '=', ' ']
        + crate::text::decimal(h as nat) + seq![',', ' ', 'r', 'u', 'l', 'e', ' ', '=', ' '] + rule.spec_to_str()
        + seq!['\n']
}

/// The text `to_rle` writes for a pattern: the header, then the body.
pub open spec fn rle_text(p: Pattern) -> Seq<char> {
    rle_body_text(
        p.life.spec_rule().spec_is_generations(),
        p.life.rows(),
        p.life.width(),
        p.life.height(),
        rle_head(p.metadata.name, p.metadata.description, p.life.width(), p.life.height(), p.life.spec_rule()),
    )
}

impl Pattern {
    /// Whether every cell has an RLE tag (states 0 and 1, or up to 3 under a Generations
    /// rule): `to_rle` may be called exactly when this holds.
    pub fn rle_writable(&self) -> (r: bool)
        requires
            self.life.wf(),
        ensures
            r == rows_taggable(self.life.spec_rule().spec_is_generations(), self.life.rows()),
    {
        proof {
            self.life.lemma_wf();
        }
        let size = self.life.size();
        let top: u8 = if self.life.get_rule().is_generations() {
            3
        } else {
            1
        };
        let ghost rows = self.life.rows();
        let ghost g = self.life.spec_rule().spec_is_generations();
        let mut y: i16 = 0;
        while y < size.y
            invariant
                self.life.wf(),
                size == self.life.spec_size(),
                rows == self.life.rows(),
                rows_wf(rows, size.x as int, size.y as int),
                0 <= size.x,
                0 <= y <= size.y,
                top == (if g { 3u8 } else { 1u8 }),
                g == self.life.spec_rule().spec_is_generations(),
                forall|yy: int, x: int| 0 <= yy < y && 0 <= x < size.x ==> (#[trigger] rows[yy][x]).spec_state() <= top,
            decreases size.y - y,
        {
            let mut x: i16 = 0;
            while x < size.x
                invariant
                    self.life.wf(),
                    size == self.life.spec_size(),
                    rows == self.life.rows(),
                    rows_wf(rows, size.x as int, size.y as int),
                    0 <= y < size.y,
                    0 <= x <= size.x,
                    top == (if g { 3u8 } else { 1u8 }),
                    g == self.life.spec_rule().spec_is_generations(),
                    forall|yy: int, xx: int|
                        0 <= yy < y && 0 <= xx < size.x ==> (#[trigger] rows[yy][xx]).spec_state() <= top,
                    forall|xx: int| 0 <= xx < x ==> (#[trigger] rows[y as int][xx]).spec_state() <= top,
                decreases size.x - x,
            {
                let c = self.life.get_cell(Pos { x, y });
                match c {
                    Some(c) => {
                        if c.get_state() > top {
                            proof {
                                assert(rows[y as int].len() == size.x);
                                assert(!((rows[y as int][x as int]).spec_state() <= (if g {
                                    3int
                                } else {
                                    1int
                                })));
                            }
                            return false;
                        }
                    },
                    None => {},
                }
                x = x + 1;
            }
            y = y + 1;
        }
        true
    }
}

impl Pattern {
    /// The pattern as Run Length Encoded text: the header lines, then the cells as runs
    /// (lines kept to 70 characters), ended by `!`.
    #[verifier::spinoff_prover]
    #[verifier::rlimit(40)]
    pub fn to_rle(&self) -> (s: String)
        requires
            self.life.wf(),
            rows_taggable(self.life.spec_rule().spec_is_generations(), self.life.rows()),
        ensures
            s@ == rle_text(*self),
    {
        let size = self.life.size();
        proof {
            self.life.lemma_wf();
        }
        let mut string = String::new();
        match &self.metadata.name {
            Some(name) => {
                crate::text::push_char(&mut string, '#');
                crate::text::push_char(&mut string, 'N');
                crate::text::push_char(&mut string, ' ');
                crate::text::push_str(&mut string, name.as_str());
                crate::text::push_char(&mut string, '\n');
            },
            None => {},
        }
        match &self.metadata.description {
            Some(desc) => {
                crate::text::push_char(&mut string, '#');
                crate::text::push_char(&mut string, 'C');
                crate::text::push_char(&mut string, ' ');
                crate::text::push_str(&mut string, desc.as_str());
                crate::text::push_char(&mut string, '\n');
            },
            None => {},
        }
        let ghost s0 = string@;
        proof {
            reveal_strlit("x = ");
            reveal_strlit(", y = ");
            reveal_strlit(", rule = ");
        }
        crate::text::push_str(&mut string, "x = ");
        let ws = crate::text::decimal_chars(size.x as u64);
        crate::text::push_chars(&mut string, &ws);
        crate::text::push_str(&mut string, ", y = ");
        let hs = crate::text::decimal_chars(size.y as u64);
        crate::text::push_chars(&mut string, &hs);
        crate::text::push_str(&mut string, ", rule = ");
        let rs = self.life.get_rule().to_str();
        crate::text::push_str(&mut string, rs.as_str());
        crate::text::push_char(&mut string, '\n');
        let ghost head = rle_head(
            self.metadata.name,
            self.metadata.description,
            self.life.width(),
            self.life.height(),
            self.life.spec_rule(),
        );
        assert(string@ =~= head);
        let generations = self.life.get_rule().is_generations();
        let dead_tag = if generations {
            '.'
        } else {
            'b'
        };
        let mut writer = RleWriter { item: None, line_count: 0, string, dead: RleItem { tag: dead_tag, count: 0 } };
        let ghost rows = self.life.rows();
        let ghost w = size.x as int;
        let ghost init: WriterState = (None, 0, head, (0, dead_tag));
        let ghost mut k: int = 0;
        assert(writer.state() == init);
        let mut y: i16 = 0;
        while y < size.y
            invariant
                self.life.wf(),
                rows == self.life.rows(),
                size == self.life.spec_size(),
                w == size.x,
                0 <= size.x <= 32765,
                0 <= size.y <= 32765,
                rows_taggable(generations, rows),
                generations == self.life.spec_rule().spec_is_generations(),
                crate::life::grid::rows_wf(rows, self.life.width(), self.life.height()),
                0 <= y <= size.y,
                writer.dead.tag == dead_tag,
                writer.bounded(k),
                0 <= k <= y * (w + 1),
                writer.state() == writer_run(init, grid_tags(generations, rows, y as int, w)),
            decreases size.y - y,
        {
            let mut x: i16 = 0;
            while x < size.x
                invariant
                    self.life.wf(),
                    rows == self.life.rows(),
                    size == self.life.spec_size(),
                    w == size.x,
                    0 <= size.x <= 32765,
                    0 <= size.y <= 32765,
                    rows_taggable(generations, rows),
                    generations == self.life.spec_rule().spec_is_generations(),
                    crate::life::grid::rows_wf(rows, self.life.width(), self.life.height()),
                    0 <= y < size.y,
                    0 <= x <= size.x,
                    writer.dead.tag == dead_tag,
                    writer.bounded(k),
                    0 <= k <= y * (w + 1) + x + (if x > 0 {
                        1int
                    } else {
                        0int
                    }),
                    writer.state() == writer_run(
                        init,
                        grid_tags(generations, rows, y as int, w) + (if x > 0 {
                            (if y > 0 {
                                seq!['$']
                            } else {
                                Seq::<char>::empty()
                            }) + row_tags(generations, rows[y as int]).take(x as int)
                        } else {
                            Seq::<char>::empty()
                        }),
                    ),
                decreases size.x - x,
            {
                let ghost before = grid_tags(generations, rows, y as int, w);
                let ghost rt = row_tags(generations, rows[y as int]);
                proof {
                    assert(k + 2 < 2_000_000_000) by (nonlinear_arith)
                        requires
                            0 <= k <= y * (w + 1) + x + 1,
                            0 <= y < 32765,
                            0 <= x < w <= 32765,
                    ;
                }
                if x == 0 && y != 0 {
                    writer.push('$', Ghost(k));
                    proof {
                        assert((before + seq!['$']).drop_last() =~= before);
                        assert((before + seq!['$']).last() == '$');
                        assert(writer.state() == writer_run(init, before + seq!['$']));
                        k = k + 1;
                    }
                }
                let c = match self.life.get_cell(Pos { x, y }) {
                    Some(c) => *c,
                    None => Cell::new(0, 0),
                };
                let t = cell_tag_exec(generations, c);
                let ghost prev = before + (if x > 0 || y > 0 {
                    (if y > 0 {
                        seq!['$']
                    } else {
                        Seq::<char>::empty()
                    }) + rt.take(x as int)
                } else {
                    Seq::<char>::empty()
                });
                proof {
                    if x == 0 && y == 0 {
                        assert(prev =~= before);
                    }
                    if x == 0 && y > 0 {
                        assert(prev =~= before + seq!['$']);
                    }
                    let nxt = before + ((if y > 0 {
                        seq!['$']
                    } else {
                        Seq::<char>::empty()
                    }) + rt.take(x + 1));
                    assert(nxt.drop_last() =~= prev);
                    assert(nxt.last() == t);
                    assert(writer.state() == writer_run(init, prev));
                }
                writer.push(t, Ghost(k));
                proof {
                    let nxt = before + ((if y > 0 {
                        seq!['$']
                    } else {
                        Seq::<char>::empty()
                    }) + rt.take(x + 1));
                    assert(writer.state() == writer_run(init, nxt));
                    k = k + 1;
                }
                x = x + 1;
            }
            proof {
                let rt = row_tags(generations, rows[y as int]);
                assert(rt.take(size.x as int) =~= rt);
                if size.x == 0 {
                    assert(rt =~= Seq::<char>::empty());
                }
                assert(k <= (y + 1) * (w + 1)) by (nonlinear_arith)
                    requires
                        k <= y * (w + 1) + w + 1,
                ;
                let nxt = grid_tags(generations, rows, y + 1, w);
                if size.x > 0 {
                    assert(nxt =~= grid_tags(generations, rows, y as int, w) + ((if y > 0 {
                        seq!['$']
                    } else {
                        Seq::<char>::empty()
                    }) + rt));
                } else {
                    assert(nxt =~= grid_tags(generations, rows, y as int, w));
                }
            }
            y = y + 1;
        }
        writer.flush();
        crate::text::push_char(&mut writer.string, '!');
        writer.string
    }
}

} // verus!
