use vstd::prelude::*;

use crate::life::algo::basic::max_dim;
use crate::life::algo::{dead_rows, quiet};
use crate::life::grid::{cell_at, rows_wf, Rows};
use crate::life::{
    cell_of, dead_cell, gol_lut, lemma_counted_fill, lemma_dead_cell, lemma_packed, packed, Cell, Life, LifeAlgoSelect,
    LifeOptions, LifeRule, Pos,
};
use crate::pattern::{Classification, Pattern, PatternMetadata};
use crate::text::{
    all_digits, base36_char, chars_of, dec_value, decimal, find_from, is_digit, lemma_decimal_digits, occurs_at, parse_u32,
    push_char, push_chars, split_chars, split_on, split_once, split_once_by, starts_with,
};

verus! {

/// `n` zero columns.
pub open spec fn zeros(n: nat) -> Seq<u32> {
    Seq::new(n, |i: int| 0u32)
}

/// The value of a column character: `0`-`9` and `a`-`v` in base 32.
pub open spec fn col_value(c: char) -> u32 {
    if '0' <= c <= '9' {
        (c as u32 - 48) as u32
    } else {
        (c as u32 - 87) as u32
    }
}

/// A base-36 digit: `0`-`9`, then `a`-`z`.
pub open spec fn is_base36_digit(c: char) -> bool {
    ('0' <= c <= '9') || ('a' <= c <= 'z')
}

/// A character that stands for one column of five cells.
pub open spec fn is_col_char(c: char) -> bool {
    ('1' <= c <= '9') || ('a' <= c <= 'v')
}

/// The column values of a strip from character `i` on: `0`, `w`, `x` are one, two and
/// three empty columns, `y` and the next character `c` stand for `c - '0' + 4` empty
/// columns, and any other character is one column of that value.
pub open spec fn apg_cols_from(sec: Seq<char>, i: int) -> Seq<u32>
    decreases sec.len() - i,
{
    if i < 0 || i >= sec.len() {
        Seq::empty()
    } else {
        let c = sec[i];
        if c == '0' {
            zeros(1) + apg_cols_from(sec, i + 1)
        } else if c == 'w' {
            zeros(2) + apg_cols_from(sec, i + 1)
        } else if c == 'x' {
            zeros(3) + apg_cols_from(sec, i + 1)
        } else if c == 'y' {
            if i + 1 < sec.len() && is_base36_digit(sec[i + 1]) {
                zeros((col_value(sec[i + 1]) + 4) as nat) + apg_cols_from(sec, i + 2)
            } else {
                Seq::empty()
            }
        } else {
            seq![col_value(c)] + apg_cols_from(sec, i + 1)
        }
    }
}

/// Every character of the strip from `i` on can be read.
pub open spec fn apg_sec_ok_from(sec: Seq<char>, i: int) -> bool
    decreases sec.len() - i,
{
    if i < 0 || i >= sec.len() {
        true
    } else {
        let c = sec[i];
        if c == '0' || c == 'w' || c == 'x' {
            apg_sec_ok_from(sec, i + 1)
        } else if c == 'y' {
            i + 1 < sec.len() && is_base36_digit(sec[i + 1]) && apg_sec_ok_from(sec, i + 2)
        } else {
            is_col_char(c) && apg_sec_ok_from(sec, i + 1)
        }
    }
}

/// The column values of a strip of five rows.
pub open spec fn apg_cols(sec: Seq<char>) -> Seq<u32> {
    apg_cols_from(sec, 0)
}

/// The greatest number of columns among the strips.
pub open spec fn max_cols(secs: Seq<Seq<char>>) -> nat
    decreases secs.len(),
{
    if secs.len() == 0 {
        0
    } else {
        let m = max_cols(secs.drop_last());
        if apg_cols(secs.last()).len() > m {
            apg_cols(secs.last()).len()
        } else {
            m
        }
    }
}

/// Bit `k` of `v`.
pub open spec fn bit(v: u32, k: int) -> bool {
    (v >> (k as u32)) & 1 == 1
}

/// The grid of the strips `secs`, `w` wide: the cell at `(x, y)` is alive (faction 0) when
/// bit `y % 5` of column `x` of strip `y / 5` is set.
pub open spec fn apg_rows(secs: Seq<Seq<char>>, w: int) -> Rows {
    Seq::new(
        (secs.len() * 5) as nat,
        |y: int|
            Seq::new(
                w as nat,
                |x: int|
                    {
                        let cols = apg_cols(secs[y / 5]);
                        if x < cols.len() && bit(cols[x], y % 5) {
                            cell_of(packed(1, 0))
                        } else {
                            dead_cell()
                        }
                    },
            ),
    )
}


/// The prefix of the `k`-th classification (in lookup order).
pub open spec fn class_word(k: int) -> Seq<char> {
    if k == 0 {
        seq!['x', 's']
    } else if k == 1 {
        seq!['x', 'p']
    } else if k == 2 {
        seq!['x', 'q']
    } else if k == 3 {
        seq!['y', 'l']
    } else if k == 4 {
        seq!['m', 'e', 't', 'h', 'u', 's', 'e', 'l', 'a', 'h']
    } else if k == 5 {
        seq!['m', 'e', 's', 's', 'l', 'e', 's', 's']
    } else if k == 6 {
        seq!['m', 'e', 'g', 'a', 's', 'i', 'z', 'e', 'd']
    } else if k == 7 {
        seq!['z', 'z', '_', 'E', 'X', 'P', 'L', 'O', 'S', 'I', 'V', 'E']
    } else if k == 8 {
        seq!['z', 'z', '_', 'L', 'I', 'N', 'E', 'A', 'R']
    } else if k == 9 {
        seq!['z', 'z', '_', 'Q', 'U', 'A', 'D', 'R', 'A', 'T', 'I', 'Z']
    } else if k == 10 {
        seq!['z', 'z', '_', 'R', 'E', 'P', 'L', 'I', 'C', 'A', 'T', 'O', 'R']
    } else {
        seq!['P', 'A', 'T', 'H', 'O', 'L', 'O', 'G', 'I', 'C', 'A', 'L']
    }
}

/// The `k`-th classification (in lookup order).
pub open spec fn class_at(k: int) -> Classification {
    if k == 0 {
        Classification::StilLife
    } else if k == 1 {
        Classification::Oscillator
    } else if k == 2 {
        Classification::Spaceship
    } else if k == 3 {
        Classification::LinearGrowth
    } else if k == 4 {
        Classification::Methuselah
    } else if k == 5 {
        Classification::Messless
    } else if k == 6 {
        Classification::Megasized
    } else if k == 7 {
        Classification::Explosive
    } else if k == 8 {
        Classification::Linear
    } else if k == 9 {
        Classification::Quadratic
    } else if k == 10 {
        Classification::Replicator
    } else {
        Classification::Pathological
    }
}

/// The place of a classification in the lookup order.
pub open spec fn class_index(c: Classification) -> int {
    match c {
        Classification::StilLife => 0,
        Classification::Oscillator => 1,
        Classification::Spaceship => 2,
        Classification::LinearGrowth => 3,
        Classification::Methuselah => 4,
        Classification::Messless => 5,
        Classification::Megasized => 6,
        Classification::Explosive => 7,
        Classification::Linear => 8,
        Classification::Quadratic => 9,
        Classification::Replicator => 10,
        Classification::Pathological => 11,
    }
}

/// The prefix of the `k`-th classification.
fn class_word_exec(k: usize) -> (v: Vec<char>)
    requires
        k < 12,
    ensures
        v@ == class_word(k as int),
{
    if k == 0 {
        proof {
            reveal_strlit("xs");
        }
        let v = chars_of("xs");
        assert(v@ =~= class_word(0));
        v
    } else if k == 1 {
        proof {
            reveal_strlit("xp");
        }
        let v = chars_of("xp");
        assert(v@ =~= class_word(1));
        v
    } else if k == 2 {
        proof {
            reveal_strlit("xq");
        }
        let v = chars_of("xq");
        assert(v@ =~= class_word(2));
        v
    } else if k == 3 {
        proof {
            reveal_strlit("yl");
        }
        let v = chars_of("yl");
        assert(v@ =~= class_word(3));
        v
    } else if k == 4 {
        proof {
            reveal_strlit("methuselah");
        }
        let v = chars_of("methuselah");
        assert(v@ =~= class_word(4));
        v
    } else if k == 5 {
        proof {
            reveal_strlit("messless");
        }
        let v = chars_of("messless");
        assert(v@ =~= class_word(5));
        v
    } else if k == 6 {
        proof {
            reveal_strlit("megasized");
        }
        let v = chars_of("megasized");
        assert(v@ =~= class_word(6));
        v
    } else if k == 7 {
        proof {
            reveal_strlit("zz_EXPLOSIVE");
        }
        let v = chars_of("zz_EXPLOSIVE");
        assert(v@ =~= class_word(7));
        v
    } else if k == 8 {
        proof {
            reveal_strlit("zz_LINEAR");
        }
        let v = chars_of("zz_LINEAR");
        assert(v@ =~= class_word(8));
        v
    } else if k == 9 {
        proof {
            reveal_strlit("zz_QUADRATIZ");
        }
        let v = chars_of("zz_QUADRATIZ");
        assert(v@ =~= class_word(9));
        v
    } else if k == 10 {
        proof {
            reveal_strlit("zz_REPLICATOR");
        }
        let v = chars_of("zz_REPLICATOR");
        assert(v@ =~= class_word(10));
        v
    } else {
        proof {
            reveal_strlit("PATHOLOGICAL");
        }
        let v = chars_of("PATHOLOGICAL");
        assert(v@ =~= class_word(11));
        v
    }
}

/// The `k`-th classification.
fn class_at_exec(k: usize) -> (c: Classification)
    requires
        k < 12,
    ensures
        c == class_at(k as int),
{
    if k == 0 {
        Classification::StilLife
    } else if k == 1 {
        Classification::Oscillator
    } else if k == 2 {
        Classification::Spaceship
    } else if k == 3 {
        Classification::LinearGrowth
    } else if k == 4 {
        Classification::Methuselah
    } else if k == 5 {
        Classification::Messless
    } else if k == 6 {
        Classification::Megasized
    } else if k == 7 {
        Classification::Explosive
    } else if k == 8 {
        Classification::Linear
    } else if k == 9 {
        Classification::Quadratic
    } else if k == 10 {
        Classification::Replicator
    } else {
        Classification::Pathological
    }
}

/// The first classification, from `k` on, whose prefix begins `prefix`.
pub open spec fn class_match_from(prefix: Seq<char>, k: int) -> Option<int>
    decreases 12 - k,
{
    if k >= 12 || k < 0 {
        None
    } else if starts_with(prefix, class_word(k)) {
        Some(k)
    } else {
        class_match_from(prefix, k + 1)
    }
}

/// The classification an apgcode prefix names, and the number that follows it (0 where it
/// does not parse).
pub open spec fn classification_of(prefix: Seq<char>) -> (Option<Classification>, Option<u32>) {
    match class_match_from(prefix, 0) {
        Some(k) => (
            Some(class_at(k)),
            if prefix.len() > class_word(k).len() {
                Some(
                    match crate::text::parse_u32(prefix.skip(class_word(k).len() as int)) {
                        Some(v) => v,
                        None => 0u32,
                    },
                )
            } else {
                None
            },
        ),
        None => (None, None),
    }
}

/// The classification and number an apgcode prefix gives.
pub fn classification_from_prefix(prefix: &Vec<char>) -> (r: (Option<Classification>, Option<u32>))
    ensures
        r == classification_of(prefix@),
{
    let mut k: usize = 0;
    while k < 12
        invariant
            k <= 12,
            class_match_from(prefix@, 0) == class_match_from(prefix@, k as int),
        decreases 12 - k,
    {
        let word = class_word_exec(k);
        if crate::text::has_prefix(prefix, &word) {
            let period = if prefix.len() > word.len() {
                let rest = crate::text::tail_from(prefix, word.len());
                match crate::text::parse_u32_exec(&rest) {
                    Some(v) => Some(v),
                    None => Some(0u32),
                }
            } else {
                None
            };
            return (Some(class_at_exec(k)), period);
        }
        k = k + 1;
    }
    (None, None)
}

/// The prefix of a classification (empty for none).
pub fn prefix_from_classification(classification: Option<Classification>) -> (v: Vec<char>)
    ensures
        v@ == (match classification {
            Some(c) => class_word(class_index(c)),
            None => Seq::<char>::empty(),
        }),
{
    match classification {
        Some(c) => {
            let k: usize = match c {
                Classification::StilLife => 0,
                Classification::Oscillator => 1,
                Classification::Spaceship => 2,
                Classification::LinearGrowth => 3,
                Classification::Methuselah => 4,
                Classification::Messless => 5,
                Classification::Megasized => 6,
                Classification::Explosive => 7,
                Classification::Linear => 8,
                Classification::Quadratic => 9,
                Classification::Replicator => 10,
                Classification::Pathological => 11,
            };
            class_word_exec(k)
        },
        None => Vec::new(),
    }
}


/// The number of empty columns `chr` stands for; after `y` the next character (at `*i`), a
/// base-36 digit `d`, gives the count `d + 4` and is consumed.
fn zero_count_read(chr: char, sec: &Vec<char>, i: &mut usize) -> (r: Option<usize>)
    requires
        chr == 'y' ==> *old(i) < sec.len() && is_base36_digit(sec@[*old(i) as int]),
    ensures
        chr == '0' ==> r == Some(1usize) && *final(i) == *old(i),
        chr == 'w' ==> r == Some(2usize) && *final(i) == *old(i),
        chr == 'x' ==> r == Some(3usize) && *final(i) == *old(i),
        chr == 'y' ==> r == Some((col_value(sec@[*old(i) as int]) + 4) as usize) && *final(i) == *old(i) + 1,
        chr != '0' && chr != 'w' && chr != 'x' && chr != 'y' ==> r is None && *final(i) == *old(i),
{
    if chr == '0' {
        Some(1)
    } else if chr == 'w' {
        Some(2)
    } else if chr == 'x' {
        Some(3)
    } else if chr == 'y' {
        let c = sec[*i];
        *i = *i + 1;
        let n: u32 = if '0' <= c && c <= '9' {
            (c as u32) - 48 + 4
        } else {
            (c as u32) - 87 + 4
        };
        Some(n as usize)
    } else {
        None
    }
}

/// The value of a column character.
fn col_value_exec(c: char) -> (v: u32)
    requires
        is_col_char(c),
    ensures
        v == col_value(c),
        v < 32,
{
    if '0' <= c && c <= '9' {
        (c as u32) - 48
    } else {
        (c as u32) - 87
    }
}

/// An apgcode the reader takes: `prefix_strips`, the strips separated by `z`, each made
/// of characters it can read, and a grid within the size limit.
pub open spec fn apg_ok(s: Seq<char>) -> bool {
    match split_once(s, seq!['_']) {
        Some(ps) => {
            let secs = split_on(ps.1, 'z');
            &&& forall|k: int| 0 <= k < secs.len() ==> apg_sec_ok_from(#[trigger] secs[k], 0)
            &&& max_cols(secs) <= max_dim()
            &&& secs.len() * 5 <= max_dim()
        },
        None => false,
    }
}

/// The strips of an apgcode.
pub open spec fn apg_secs(s: Seq<char>) -> Seq<Seq<char>> {
    let ps = split_once(s, seq!['_'])->0;
    split_on(ps.1, 'z')
}

/// Cell `(x, y)` has been read once strip `r` is read up to column `xc` and bit `dc`.
pub open spec fn apg_visited(x: int, y: int, r: int, xc: int, dc: int) -> bool {
    y / 5 < r || (y / 5 == r && (x < xc || (x == xc && y % 5 < dc)))
}

/// The cells of `full` read so far; dead elsewhere.
pub open spec fn apg_upto(full: Rows, w: int, h: int, r: int, xc: int, dc: int) -> Rows {
    Seq::new(
        h as nat,
        |y: int|
            Seq::new(
                w as nat,
                |x: int|
                    if apg_visited(x, y, r, xc, dc) {
                        full[y][x]
                    } else {
                        dead_cell()
                    },
            ),
    )
}

proof fn lemma_apg_cols_prefix(sec: Seq<char>, i: int)
    requires
        0 <= i,
    ensures
        apg_sec_ok_from(sec, i) && i < sec.len() ==> ({
            let c = sec[i];
            &&& c == '0' ==> apg_cols_from(sec, i) == zeros(1) + apg_cols_from(sec, i + 1)
            &&& c == 'w' ==> apg_cols_from(sec, i) == zeros(2) + apg_cols_from(sec, i + 1)
            &&& c == 'x' ==> apg_cols_from(sec, i) == zeros(3) + apg_cols_from(sec, i + 1)
        }),
{
}

/// The number of columns of a strip.
fn strip_len(sec: &Vec<char>) -> (n: usize)
    requires
        apg_sec_ok_from(sec@, 0),
        apg_cols(sec@).len() <= max_dim(),
    ensures
        n == apg_cols(sec@).len(),
{
    let mut n: usize = 0;
    let mut i: usize = 0;
    let ghost mut done: Seq<u32> = Seq::empty();
    assert(done + apg_cols_from(sec@, 0) =~= apg_cols(sec@));
    while i < sec.len()
        invariant
            i <= sec.len(),
            apg_sec_ok_from(sec@, i as int),
            done + apg_cols_from(sec@, i as int) == apg_cols(sec@),
            n == done.len(),
            apg_cols(sec@).len() <= max_dim(),
        decreases sec.len() - i,
    {
        let c = sec[i];
        i = i + 1;
        let before = i;
        match zero_count_read(c, sec, &mut i) {
            Some(k) => {
                proof {
                    let z = zeros(k as nat);
                    assert(done + z + apg_cols_from(sec@, i as int) =~= done + (z + apg_cols_from(sec@, i as int)));
                    done = done + z;
                }
                n = n + k;
            },
            None => {
                proof {
                    let z = seq![col_value(c)];
                    assert(sec@[before - 1] == c);
                    assert(c != '0' && c != 'w' && c != 'x' && c != 'y');
                    assert(is_col_char(c));
                    assert(i == before);
                    assert(apg_cols_from(sec@, before - 1) == seq![col_value(c)] + apg_cols_from(sec@, before as int));
                    assert(done + z + apg_cols_from(sec@, i as int) =~= done + (z + apg_cols_from(sec@, i as int)));
                    done = done + z;
                }
                n = n + 1;
            },
        }
    }
    assert(done =~= apg_cols(sec@));
    n
}


proof fn lemma_and_one(a: u32)
    ensures
        a & 1 == 0 || a & 1 == 1,
{
    assert(a & 1 == 0 || a & 1 == 1) by (bit_vector);
}

proof fn lemma_bit_of_zero(d: u32)
    ensures
        (0u32 >> d) & 1 == 0,
{
    assert((0u32 >> d) & 1 == 0) by (bit_vector);
}

proof fn lemma_apg_upto_ends(full: Rows, w: int, h: int)
    requires
        rows_wf(full, w, h),
        w >= 0,
        h >= 0,
        h % 5 == 0,
    ensures
        apg_upto(full, w, h, 0, 0, 0) == dead_rows(w, h),
        apg_upto(full, w, h, h / 5, 0, 0) == full,
{
    assert(apg_upto(full, w, h, 0, 0, 0) =~~= dead_rows(w, h));
    assert(apg_upto(full, w, h, h / 5, 0, 0) =~~= full);
}

proof fn lemma_apg_upto_bit(full: Rows, w: int, h: int, r: int, x: int, dy: int)
    requires
        rows_wf(full, w, h),
        0 <= x < w,
        0 <= dy < 5,
        0 <= 5 * r + dy < h,
    ensures
        apg_upto(full, w, h, r, x, dy)[5 * r + dy][x] == dead_cell(),
        rows_wf(apg_upto(full, w, h, r, x, dy), w, h),
        apg_upto(full, w, h, r, x, dy + 1) == apg_upto(full, w, h, r, x, dy).update(
            5 * r + dy,
            apg_upto(full, w, h, r, x, dy)[5 * r + dy].update(x, full[5 * r + dy][x]),
        ),
        full[5 * r + dy][x] == dead_cell() ==> apg_upto(full, w, h, r, x, dy + 1) == apg_upto(full, w, h, r, x, dy),
{
    let a = apg_upto(full, w, h, r, x, dy);
    let b = apg_upto(full, w, h, r, x, dy + 1);
    assert((5 * r + dy) / 5 == r && (5 * r + dy) % 5 == dy);
    assert(b =~~= a.update(5 * r + dy, a[5 * r + dy].update(x, full[5 * r + dy][x])));
    if full[5 * r + dy][x] == dead_cell() {
        assert(b =~~= a);
    }
}

proof fn lemma_apg_upto_col(full: Rows, w: int, h: int, r: int, x: int)
    ensures
        apg_upto(full, w, h, r, x, 5) == apg_upto(full, w, h, r, x + 1, 0),
{
    assert(apg_upto(full, w, h, r, x, 5) =~~= apg_upto(full, w, h, r, x + 1, 0));
}

proof fn lemma_apg_upto_skip(full: Rows, w: int, h: int, r: int, x: int, n: int)
    requires
        rows_wf(full, w, h),
        n >= 0,
        forall|xx: int, y: int| x <= xx < x + n && 0 <= xx < w && 0 <= y < h && y / 5 == r ==> #[trigger] full[y][xx]
            == dead_cell(),
    ensures
        apg_upto(full, w, h, r, x, 0) == apg_upto(full, w, h, r, x + n, 0),
{
    assert(apg_upto(full, w, h, r, x, 0) =~~= apg_upto(full, w, h, r, x + n, 0));
}

proof fn lemma_apg_full_cell(secs: Seq<Seq<char>>, w: int, r: int, x: int, dy: int)
    requires
        0 <= r < secs.len(),
        0 <= x < w,
        0 <= dy < 5,
    ensures
        apg_rows(secs, w)[5 * r + dy][x] == (if x < apg_cols(secs[r]).len() && bit(apg_cols(secs[r])[x], dy) {
            cell_of(packed(1, 0))
        } else {
            dead_cell()
        }),
{
    assert((5 * r + dy) / 5 == r && (5 * r + dy) % 5 == dy);
}

proof fn lemma_max_cols(secs: Seq<Seq<char>>)
    ensures
        forall|k: int| 0 <= k < secs.len() ==> apg_cols(#[trigger] secs[k]).len() <= max_cols(secs),
    decreases secs.len(),
{
    if secs.len() > 0 {
        lemma_max_cols(secs.drop_last());
        assert forall|k: int| 0 <= k < secs.len() implies apg_cols(#[trigger] secs[k]).len() <= max_cols(secs) by {
            if k < secs.len() - 1 {
                assert(secs[k] == secs.drop_last()[k]);
            }
        }
    }
}

impl Pattern {
    /// A pattern from an apgcode (<https://conwaylife.com/wiki/Apgcode>): the prefix before
    /// `_` gives the classification and number, and the strips after it, separated by
    /// `z`, each five rows of the grid, one character per column (bit `k` for row `k`).
    pub fn from_apgcode(apgcode: &str, options: LifeOptions) -> (p: Pattern)
        requires
            apg_ok(apgcode@),
            options.algo != LifeAlgoSelect::Sprase,
            options.algo == LifeAlgoSelect::Cached ==> quiet(options.rule),
        ensures
            ({
                let secs = apg_secs(apgcode@);
                let w = max_cols(secs);
                let ps = split_once(apgcode@, seq!['_'])->0;
                &&& p.life.wf()
                &&& p.life.kind() == options.algo
                &&& p.life.spec_rule() == options.rule
                &&& p.life.spec_generation() == 0
                &&& p.life.spec_size() == (Pos { x: w as i16, y: (secs.len() * 5) as i16 })
                &&& p.life.rows() == apg_rows(secs, w as int)
                &&& p.life.counted()
                &&& (p.metadata.classification, p.metadata.period_or_pop_or_lifespan) == classification_of(ps.0)
                &&& p.metadata.name is None
                &&& p.metadata.description is None
            }),
    {
        let cs = chars_of(apgcode);
        let mut us: Vec<char> = Vec::new();
        us.push('_');
        assert(us@ =~= seq!['_']);
        let (prefix, suffix) = match split_once_by(&cs, &us) {
            Some(ps) => ps,
            None => (Vec::new(), Vec::new()),
        };
        let (classification, period) = classification_from_prefix(&prefix);
        let secs = split_chars(&suffix, 'z');
        let ghost gs = apg_secs(apgcode@);
        proof {
            assert(secs@.len() == gs.len());
            lemma_max_cols(gs);
        }
        let mut w: usize = 0;
        let mut k: usize = 0;
        proof {
            assert(gs.take(0) =~= Seq::<Seq<char>>::empty());
        }
        while k < secs.len()
            invariant
                secs@.len() == gs.len(),
                forall|j: int| 0 <= j < secs@.len() ==> (#[trigger] secs@[j])@ == gs[j],
                forall|j: int| 0 <= j < gs.len() ==> apg_sec_ok_from(#[trigger] gs[j], 0),
                forall|j: int| 0 <= j < gs.len() ==> apg_cols(#[trigger] gs[j]).len() <= max_cols(gs),
                max_cols(gs) <= max_dim(),
                k <= secs.len(),
                w == max_cols(gs.take(k as int)),
            decreases secs.len() - k,
        {
            proof {
                assert(gs.take(k + 1).drop_last() =~= gs.take(k as int));
                assert(gs.take(k + 1).last() == gs[k as int]);
            }
            let n = strip_len(&secs[k]);
            if n > w {
                w = n;
            }
            k = k + 1;
        }
        proof {
            assert(gs.take(secs.len() as int) =~= gs);
        }
        let nsec = secs.len();
        let h: usize = nsec * 5;
        let size = Pos { x: w as i16, y: h as i16 };
        let mut life = Life::new_ex(size, options);
        let ghost gw = w as int;
        let ghost gh = h as int;
        let ghost full = apg_rows(gs, gw);
        proof {
            assert(rows_wf(full, gw, gh));
            lemma_apg_upto_ends(full, gw, gh);
            life.lemma_fresh_counted(options.algo, size, options.rule);
            lemma_packed(1, 0);
        }
        let alive = Cell::new(1, 0);
        let mut r: usize = 0;
        while r < nsec
            invariant
                secs@.len() == gs.len(),
                nsec == gs.len(),
                forall|j: int| 0 <= j < secs@.len() ==> (#[trigger] secs@[j])@ == gs[j],
                forall|j: int| 0 <= j < gs.len() ==> apg_sec_ok_from(#[trigger] gs[j], 0),
                forall|j: int| 0 <= j < gs.len() ==> apg_cols(#[trigger] gs[j]).len() <= max_cols(gs),
                w == max_cols(gs),
                w <= max_dim(),
                h == nsec * 5,
                h <= max_dim(),
                gw == w,
                gh == h,
                full == apg_rows(gs, gw),
                rows_wf(full, gw, gh),
                alive == cell_of(packed(1, 0)),
                alive.spec_faction() == 0,
                r <= nsec,
                size == (Pos { x: w as i16, y: h as i16 }),
                life.wf(),
                life.kind() == options.algo,
                life.spec_size() == size,
                life.spec_rule() == options.rule,
                life.spec_generation() == 0,
                life.rows() == apg_upto(full, gw, gh, r as int, 0, 0),
                life.counted(),
            decreases nsec - r,
        {
            let sec = &secs[r];
            let ghost cols = apg_cols(gs[r as int]);
            let ghost mut done: Seq<u32> = Seq::empty();
            assert(done + apg_cols_from(sec@, 0) =~= cols);
            let mut x: usize = 0;
            let mut i: usize = 0;
            while i < sec.len()
                invariant
                    sec@ == gs[r as int],
                    r < nsec,
                    nsec == gs.len(),
                    cols == apg_cols(gs[r as int]),
                    cols.len() <= w,
                    i <= sec.len(),
                    apg_sec_ok_from(sec@, i as int),
                    done + apg_cols_from(sec@, i as int) == cols,
                    x == done.len(),
                    w <= max_dim(),
                    h == nsec * 5,
                    h <= max_dim(),
                    gw == w,
                    gh == h,
                    full == apg_rows(gs, gw),
                    rows_wf(full, gw, gh),
                    alive == cell_of(packed(1, 0)),
                    alive.spec_faction() == 0,
                    size == (Pos { x: w as i16, y: h as i16 }),
                    life.wf(),
                    life.kind() == options.algo,
                    life.spec_size() == size,
                    life.spec_rule() == options.rule,
                    life.spec_generation() == 0,
                    life.rows() == apg_upto(full, gw, gh, r as int, x as int, 0),
                    life.counted(),
                decreases sec.len() - i,
            {
                let c = sec[i];
                i = i + 1;
                let before = i;
                match zero_count_read(c, sec, &mut i) {
                    Some(n) => {
                        proof {
                            let z = zeros(n as nat);
                            assert(apg_cols_from(sec@, before - 1) == z + apg_cols_from(sec@, i as int));
                            assert(done + z + apg_cols_from(sec@, i as int) =~= done + (z + apg_cols_from(sec@, i as int)));
                            assert forall|xx: int, y: int| x <= xx < x + n && 0 <= xx < gw && 0 <= y < gh && y / 5 == r implies #[trigger] full[y][xx]
                                == dead_cell() by {
                                assert(cols[xx] == (done + z + apg_cols_from(sec@, i as int))[xx]);
                                assert(cols[xx] == 0);
                                let dy = y % 5;
                                assert(y == 5 * r + dy);
                                lemma_bit_of_zero(dy as u32);
                                lemma_apg_full_cell(gs, gw, r as int, xx, dy);
                            }
                            lemma_apg_upto_skip(full, gw, gh, r as int, x as int, n as int);
                            done = done + z;
                        }
                        x = x + n;
                    },
                    None => {
                        let v = col_value_exec(c);
                        proof {
                            assert(apg_cols_from(sec@, before - 1) == seq![col_value(c)] + apg_cols_from(sec@, before as int));
                            assert(done + seq![v] + apg_cols_from(sec@, i as int) =~= done + (seq![v] + apg_cols_from(sec@, i as int)));
                            assert(cols[x as int] == v);
                        }
                        let mut dy: usize = 0;
                        while dy < 6
                            invariant
                                dy <= 6,
                                x < cols.len(),
                                cols.len() <= w,
                                cols[x as int] == v,
                                v < 32,
                                cols == apg_cols(gs[r as int]),
                                r < nsec,
                                nsec == gs.len(),
                                w <= max_dim(),
                                h == nsec * 5,
                                h <= max_dim(),
                                gw == w,
                                gh == h,
                                full == apg_rows(gs, gw),
                                rows_wf(full, gw, gh),
                                alive == cell_of(packed(1, 0)),
                                alive.spec_faction() == 0,
                                size == (Pos { x: w as i16, y: h as i16 }),
                                life.wf(),
                                life.kind() == options.algo,
                                life.spec_size() == size,
                                life.spec_rule() == options.rule,
                                life.spec_generation() == 0,
                                life.rows() == apg_upto(full, gw, gh, r as int, x as int, if dy < 5 {
                                    dy as int
                                } else {
                                    5
                                }),
                                life.counted(),
                            decreases 6 - dy,
                        {
                            proof {
                                lemma_and_one(v >> (dy as u32));
                            }
                            if (v >> (dy as u32)) & 1 != 0 {
                                if dy == 5 {
                                    assert((v >> 5u32) & 1 == 0) by (bit_vector)
                                        requires
                                            v < 32,
                                    ;
                                }
                                let y: usize = r * 5 + dy;
                                proof {
                                    lemma_apg_upto_bit(full, gw, gh, r as int, x as int, dy as int);
                                    lemma_apg_full_cell(gs, gw, r as int, x as int, dy as int);
                                }
                                let ghost r0 = life.rows();
                                let ghost p0 = life.pops_view();
                                life.insert(Pos { x: x as i16, y: y as i16 }, alive);
                                proof {
                                    lemma_counted_fill(r0, p0, y as int, x as int, alive, life.pops_view());
                                }
                            } else {
                                proof {
                                    if dy < 5 {
                                        lemma_apg_upto_bit(full, gw, gh, r as int, x as int, dy as int);
                                        lemma_apg_full_cell(gs, gw, r as int, x as int, dy as int);
                                    }
                                }
                            }
                            dy = dy + 1;
                        }
                        proof {
                            lemma_apg_upto_col(full, gw, gh, r as int, x as int);
                            done = done + seq![v];
                        }
                        x = x + 1;
                    },
                }
            }
            proof {
                assert(done =~= cols);
                assert forall|xx: int, y: int| x <= xx < x + (gw - x) && 0 <= xx < gw && 0 <= y < gh && y / 5 == r implies #[trigger] full[y][xx]
                    == dead_cell() by {
                    let dy = y % 5;
                    assert(y == 5 * r + dy);
                    lemma_apg_full_cell(gs, gw, r as int, xx, dy);
                }
                lemma_apg_upto_skip(full, gw, gh, r as int, x as int, gw - x);
                assert(apg_upto(full, gw, gh, r as int, gw, 0) =~~= apg_upto(full, gw, gh, r + 1, 0, 0));
            }
            r = r + 1;
        }
        let metadata = PatternMetadata {
            name: None,
            description: None,
            classification,
            period_or_pop_or_lifespan: period,
        };
        Pattern { life, metadata }
    }
}


/// One if the cell at `(x, y)` is alive (dead off the grid), else zero.
pub open spec fn alive_bit(rows: Rows, x: int, y: int) -> u32 {
    if cell_at(rows, x, y).spec_is_alive() {
        1
    } else {
        0
    }
}

/// The value of column `x` of strip `r`: bit `k` is set when the cell at `(x, 5r + k)` is
/// alive.
pub open spec fn col_of(rows: Rows, x: int, r: int) -> u32 {
    (alive_bit(rows, x, 5 * r) + 2 * alive_bit(rows, x, 5 * r + 1) + 4 * alive_bit(rows, x, 5 * r + 2) + 8 * alive_bit(
        rows,
        x,
        5 * r + 3,
    ) + 16 * alive_bit(rows, x, 5 * r + 4)) as u32
}

/// The characters for `n` empty columns: none, `0`, `w`, `x`, or `y` and the count less
/// four as a base-26 digit.
pub open spec fn zero_code(n: nat) -> Seq<char> {
    if n == 0 {
        Seq::empty()
    } else if n == 1 {
        seq!['0']
    } else if n == 2 {
        seq!['w']
    } else if n == 3 {
        seq!['x']
    } else {
        seq!['y', base36_char((n - 4) as nat)]
    }
}

/// The text of strip `r` from column `x` on, with `zc` empty columns pending: empty
/// columns are counted and written only before a column that is not empty.
pub open spec fn apg_row_text(rows: Rows, r: int, w: int, x: int, zc: nat) -> Seq<char>
    decreases w - x,
{
    if x >= w {
        Seq::empty()
    } else {
        let v = col_of(rows, x, r);
        if v != 0 {
            zero_code(zc) + seq![base36_char(v as nat)] + apg_row_text(rows, r, w, x + 1, 0)
        } else {
            apg_row_text(rows, r, w, x + 1, zc + 1)
        }
    }
}

/// No run of empty columns that gets written is longer than 29.
pub open spec fn apg_row_ok(rows: Rows, r: int, w: int, x: int, zc: nat) -> bool
    decreases w - x,
{
    if x >= w {
        true
    } else {
        let v = col_of(rows, x, r);
        if v != 0 {
            zc <= 29 && apg_row_ok(rows, r, w, x + 1, 0)
        } else {
            apg_row_ok(rows, r, w, x + 1, zc + 1)
        }
    }
}

/// The number of strips of five rows that cover `h` rows.
pub open spec fn strip_count(h: int) -> int {
    h / 5 + if h % 5 == 0 {
        0int
    } else {
        1int
    }
}

/// The strips `0..n`, each followed by `z`.
pub open spec fn apg_body(rows: Rows, w: int, n: int) -> Seq<char>
    decreases n,
{
    if n <= 0 {
        Seq::empty()
    } else {
        apg_body(rows, w, n - 1) + apg_row_text(rows, n - 1, w, 0, 0) + seq!['z']
    }
}

/// Every strip can be written.
pub open spec fn apg_writable(rows: Rows, w: int, h: int) -> bool {
    forall|r: int| 0 <= r < strip_count(h) ==> #[trigger] apg_row_ok(rows, r, w, 0, 0)
}

/// The apgcode of a grid with a classification and number: the prefix, the number, `_`,
/// then the strips separated by `z`.
pub open spec fn apgcode_text(classification: Option<Classification>, period: Option<u32>, rows: Rows, w: int, h: int) -> Seq<
    char,
> {
    let head = (match classification {
        Some(c) => class_word(class_index(c)),
        None => Seq::<char>::empty(),
    }) + (match period {
        Some(p) => decimal(p as nat),
        None => Seq::<char>::empty(),
    }) + seq!['_'];
    (head + apg_body(rows, w, strip_count(h))).drop_last()
}

/// Write the characters for `count` empty columns.
pub fn zero_count_write(string: &mut String, count: usize)
    requires
        count <= 29,
    ensures
        final(string)@ == old(string)@ + zero_code(count as nat),
{
    if count == 0 {
    } else if count == 1 {
        push_char(string, '0');
    } else if count == 2 {
        push_char(string, 'w');
    } else if count == 3 {
        push_char(string, 'x');
    } else {
        push_char(string, 'y');
        let c = crate::text::char_of_base36((count - 4) as u32);
        push_char(string, c);
    }
    assert(final(string)@ =~= old(string)@ + zero_code(count as nat));
}

/// One if the cell at `pos` is alive (dead off the grid).
fn alive_bit_exec(life: &Life, x: usize, y: usize) -> (b: u32)
    requires
        life.wf(),
        x <= 32767,
        y <= 32767,
    ensures
        b == alive_bit(life.rows(), x as int, y as int),
{
    proof {
        life.lemma_wf();
        lemma_dead_cell();
    }
    match life.get_cell(Pos { x: x as i16, y: y as i16 }) {
        Some(c) => if c.is_alive() {
            1
        } else {
            0
        },
        None => 0,
    }
}

/// The apgcode of `life` with `classification` and `period`.
fn apgcode_of(life: &Life, classification: Option<Classification>, period: Option<u32>) -> (s: String)
    requires
        life.wf(),
        apg_writable(life.rows(), life.width(), life.height()),
    ensures
        s@ == apgcode_text(classification, period, life.rows(), life.width(), life.height()),
{
    let mut string = String::new();
    let pw = prefix_from_classification(classification);
    push_chars(&mut string, &pw);
    match period {
        Some(p) => {
            let ds = crate::text::decimal_chars(p as u64);
            push_chars(&mut string, &ds);
        },
        None => {},
    }
    push_char(&mut string, '_');
    let ghost head = string@;
    assert(head =~= (match classification {
        Some(c) => class_word(class_index(c)),
        None => Seq::<char>::empty(),
    }) + (match period {
        Some(p) => decimal(p as nat),
        None => Seq::<char>::empty(),
    }) + seq!['_']);
    let size = life.size();
    proof {
        life.lemma_wf();
    }
    let ghost rows = life.rows();
    let w: usize = size.x as usize;
    let h: usize = size.y as usize;
    let strips: usize = h / 5 + if h % 5 == 0 {
        0
    } else {
        1
    };
    let mut r: usize = 0;
    while r < strips
        invariant
            life.wf(),
            rows == life.rows(),
            w == life.width(),
            h == life.height(),
            w <= max_dim(),
            h <= max_dim(),
            strips == strip_count(h as int),
            r <= strips,
            apg_writable(rows, w as int, h as int),
            string@ == head + apg_body(rows, w as int, r as int),
        decreases strips - r,
    {
        let ghost total = apg_row_text(rows, r as int, w as int, 0, 0);
        let ghost mut written: Seq<char> = Seq::empty();
        let mut zero_count: usize = 0;
        let mut x: usize = 0;
        proof {
            assert(apg_row_ok(rows, r as int, w as int, 0, 0));
            assert(written + apg_row_text(rows, r as int, w as int, 0, 0) =~= total);
        }
        while x < w
            invariant
                life.wf(),
                rows == life.rows(),
                w == life.width(),
                w <= max_dim(),
                h <= max_dim(),
                r < strips,
                strips == strip_count(h as int),
                x <= w,
                zero_count <= x,
                apg_row_ok(rows, r as int, w as int, x as int, zero_count as nat),
                written + apg_row_text(rows, r as int, w as int, x as int, zero_count as nat) == total,
                string@ == head + apg_body(rows, w as int, r as int) + written,
            decreases w - x,
        {
            let y0 = r * 5;
            let b0 = alive_bit_exec(life, x, y0);
            let b1 = alive_bit_exec(life, x, y0 + 1);
            let b2 = alive_bit_exec(life, x, y0 + 2);
            let b3 = alive_bit_exec(life, x, y0 + 3);
            let b4 = alive_bit_exec(life, x, y0 + 4);
            let col: u32 = b0 + 2 * b1 + 4 * b2 + 8 * b3 + 16 * b4;
            assert(col == col_of(rows, x as int, r as int));
            if col != 0 {
                zero_count_write(&mut string, zero_count);
                let c = crate::text::char_of_base36(col);
                push_char(&mut string, c);
                proof {
                    let piece = zero_code(zero_count as nat) + seq![base36_char(col as nat)];
                    assert(written + piece + apg_row_text(rows, r as int, w as int, x + 1, 0) =~= written + (piece
                        + apg_row_text(rows, r as int, w as int, x + 1, 0)));
                    written = written + piece;
                }
                zero_count = 0;
            } else {
                zero_count = zero_count + 1;
            }
            x = x + 1;
        }
        push_char(&mut string, 'z');
        proof {
            assert(written =~= total);
            assert(head + apg_body(rows, w as int, r + 1) =~= head + apg_body(rows, w as int, r as int) + total
                + seq!['z']);
        }
        r = r + 1;
    }
    let mut out = chars_of(string.as_str());
    let _ = out.pop();
    crate::text::string_of(&out)
}

/// The apgcode of a pattern: the prefix of its classification, its number, `_`, then its
/// grid in strips of five rows.
pub fn apgcode_from_pattern(pattern: &Pattern) -> (s: String)
    requires
        pattern.life.wf(),
        apg_writable(pattern.life.rows(), pattern.life.width(), pattern.life.height()),
    ensures
        s@ == apgcode_text(
            pattern.metadata.classification,
            pattern.metadata.period_or_pop_or_lifespan,
            pattern.life.rows(),
            pattern.life.width(),
            pattern.life.height(),
        ),
{
    apgcode_of(&pattern.life, pattern.metadata.classification, pattern.metadata.period_or_pop_or_lifespan)
}

/// The pattern an apgcode describes, on a basic grid under `rule` (Conway's rule when
/// `None`).
pub fn new_pattern_from_apgcode(apgcode: &str, rule: Option<LifeRule>) -> (p: Pattern)
    requires
        apg_ok(apgcode@),
    ensures
        ({
            let secs = apg_secs(apgcode@);
            let w = max_cols(secs);
            let ps = split_once(apgcode@, seq!['_'])->0;
            &&& p.life.wf()
            &&& p.life.kind() == LifeAlgoSelect::Basic
            &&& p.life.spec_rule().spec_lut() == (match rule {
                Some(r) => r.spec_lut(),
                None => gol_lut(),
            })
            &&& p.life.spec_generation() == 0
            &&& p.life.spec_size() == (Pos { x: w as i16, y: (secs.len() * 5) as i16 })
            &&& p.life.rows() == apg_rows(secs, w as int)
            &&& p.life.counted()
            &&& (p.metadata.classification, p.metadata.period_or_pop_or_lifespan) == classification_of(ps.0)
            &&& p.metadata.name is None
            &&& p.metadata.description is None
        }),
{
    let rule = match rule {
        Some(r) => r,
        None => LifeRule::gol(),
    };
    Pattern::from_apgcode(apgcode, LifeOptions { algo: LifeAlgoSelect::Basic, rule })
}

impl Pattern {
    /// The pattern's apgcode (see `apgcode_from_pattern`).
    pub fn to_apgcode(&self) -> (s: String)
        requires
            self.life.wf(),
            apg_writable(self.life.rows(), self.life.width(), self.life.height()),
        ensures
            s@ == apgcode_text(
                self.metadata.classification,
                self.metadata.period_or_pop_or_lifespan,
                self.life.rows(),
                self.life.width(),
                self.life.height(),
            ),
    {
        apgcode_from_pattern(self)
    }
}

impl Life {
    /// The grid's apgcode with no classification: `_` then the strips.
    pub fn to_apgcode(&self) -> (s: String)
        requires
            self.wf(),
            apg_writable(self.rows(), self.width(), self.height()),
        ensures
            s@ == apgcode_text(None, None, self.rows(), self.width(), self.height()),
    {
        apgcode_of(self, None, None)
    }

    /// The grid an apgcode describes (see `Pattern::from_apgcode`).
    pub fn from_apgcode(apgcode: &str, options: LifeOptions) -> (r: Life)
        requires
            apg_ok(apgcode@),
            options.algo != LifeAlgoSelect::Sprase,
            options.algo == LifeAlgoSelect::Cached ==> quiet(options.rule),
        ensures
            ({
                let secs = apg_secs(apgcode@);
                let w = max_cols(secs);
                &&& r.wf()
                &&& r.kind() == options.algo
                &&& r.spec_rule() == options.rule
                &&& r.spec_generation() == 0
                &&& r.spec_size() == (Pos { x: w as i16, y: (secs.len() * 5) as i16 })
                &&& r.rows() == apg_rows(secs, w as int)
                &&& r.counted()
            }),
    {
        Pattern::from_apgcode(apgcode, options).life
    }
}


/// The column values that strip `r` writes from column `x` on, with `zc` empty columns
/// pending: each run of empty columns up to the last column with a live cell, then that
/// column.
pub open spec fn strip_cols(rows: Rows, r: int, w: int, x: int, zc: nat) -> Seq<u32>
    decreases w - x,
{
    if x >= w {
        Seq::empty()
    } else if col_of(rows, x, r) != 0 {
        zeros(zc) + seq![col_of(rows, x, r)] + strip_cols(rows, r, w, x + 1, 0)
    } else {
        strip_cols(rows, r, w, x + 1, zc + 1)
    }
}

/// Reading from inside the second part of a text reads that part alone.
proof fn lemma_cols_shift(p: Seq<char>, t: Seq<char>, i: int)
    requires
        p.len() <= i,
    ensures
        apg_cols_from(p + t, i) == apg_cols_from(t, i - p.len()),
    decreases (p + t).len() - i,
{
    let s = p + t;
    let j = i - p.len();
    if i < s.len() {
        assert(s[i] == t[j]);
        lemma_cols_shift(p, t, i + 1);
        if i + 1 < s.len() {
            assert(s[i + 1] == t[j + 1]);
            lemma_cols_shift(p, t, i + 2);
        }
    }
}

/// A column value of a live strip, written and read back.
proof fn lemma_col_char(v: u32)
    requires
        1 <= v < 32,
    ensures
        is_col_char(base36_char(v as nat)),
        col_value(base36_char(v as nat)) == v,
        base36_char(v as nat) != '0' && base36_char(v as nat) != 'w' && base36_char(v as nat) != 'x'
            && base36_char(v as nat) != 'y' && base36_char(v as nat) != 'z' && base36_char(v as nat) != '_',
{
}

proof fn lemma_col_bound(rows: Rows, x: int, r: int)
    ensures
        col_of(rows, x, r) < 32,
{
}

/// The strip text reads back as the strip's column values.
proof fn lemma_strip_read(rows: Rows, r: int, w: int, x: int, zc: nat)
    requires
        apg_row_ok(rows, r, w, x, zc),
    ensures
        apg_cols(apg_row_text(rows, r, w, x, zc)) == strip_cols(rows, r, w, x, zc),
    decreases w - x,
{
    if x < w {
        let v = col_of(rows, x, r);
        lemma_col_bound(rows, x, r);
        if v != 0 {
            lemma_strip_read(rows, r, w, x + 1, 0);
            lemma_col_char(v);
            let c = base36_char(v as nat);
            let rest = apg_row_text(rows, r, w, x + 1, 0);
            let p = zero_code(zc) + seq![c];
            let text = p + rest;
            assert(apg_row_text(rows, r, w, x, zc) == text);
            lemma_cols_shift(p, rest, p.len() as int);
            assert(p.len() as int - p.len() == 0);
            let tail = apg_cols_from(rest, 0);
            if zc == 0 {
                assert(text[0] == c);
                assert(apg_cols_from(text, 0) == seq![v] + apg_cols_from(text, 1));
                assert(zeros(0) + seq![v] + tail =~= seq![v] + tail);
            } else if zc == 1 {
                assert(text[0] == '0' && text[1] == c);
                assert(apg_cols_from(text, 1) == seq![v] + apg_cols_from(text, 2));
                assert(zeros(1) + seq![v] + tail =~= zeros(1) + (seq![v] + tail));
            } else if zc == 2 {
                assert(text[0] == 'w' && text[1] == c);
                assert(apg_cols_from(text, 1) == seq![v] + apg_cols_from(text, 2));
                assert(zeros(2) + seq![v] + tail =~= zeros(2) + (seq![v] + tail));
            } else if zc == 3 {
                assert(text[0] == 'x' && text[1] == c);
                assert(apg_cols_from(text, 1) == seq![v] + apg_cols_from(text, 2));
                assert(zeros(3) + seq![v] + tail =~= zeros(3) + (seq![v] + tail));
            } else {
                let d = base36_char((zc - 4) as nat);
                assert(text[0] == 'y' && text[1] == d && text[2] == c);
                assert(is_base36_digit(d) && col_value(d) + 4 == zc);
                assert(apg_cols_from(text, 2) == seq![v] + apg_cols_from(text, 3));
                assert(zeros(zc) + seq![v] + tail =~= zeros(zc) + (seq![v] + tail));
            }
        } else {
            lemma_strip_read(rows, r, w, x + 1, zc + 1);
        }
    }
}

proof fn lemma_ok_shift(p: Seq<char>, t: Seq<char>, i: int)
    requires
        p.len() <= i,
    ensures
        apg_sec_ok_from(p + t, i) == apg_sec_ok_from(t, i - p.len()),
    decreases (p + t).len() - i,
{
    let s = p + t;
    let j = i - p.len();
    if i < s.len() {
        assert(s[i] == t[j]);
        lemma_ok_shift(p, t, i + 1);
        if i + 1 < s.len() {
            assert(s[i + 1] == t[j + 1]);
            lemma_ok_shift(p, t, i + 2);
        }
    }
}

/// The strip text is one the reader takes.
proof fn lemma_strip_ok(rows: Rows, r: int, w: int, x: int, zc: nat)
    requires
        apg_row_ok(rows, r, w, x, zc),
    ensures
        apg_sec_ok_from(apg_row_text(rows, r, w, x, zc), 0),
    decreases w - x,
{
    if x < w {
        let v = col_of(rows, x, r);
        lemma_col_bound(rows, x, r);
        if v != 0 {
            lemma_strip_ok(rows, r, w, x + 1, 0);
            lemma_col_char(v);
            let c = base36_char(v as nat);
            let rest = apg_row_text(rows, r, w, x + 1, 0);
            let p = zero_code(zc) + seq![c];
            let text = p + rest;
            assert(apg_row_text(rows, r, w, x, zc) == text);
            lemma_ok_shift(p, rest, p.len() as int);
            assert(p.len() as int - p.len() == 0);
            assert(apg_sec_ok_from(text, p.len() as int));
            if zc == 0 {
                assert(text[0] == c);
                assert(apg_sec_ok_from(text, 0));
            } else if zc == 1 {
                assert(text[0] == '0' && text[1] == c);
                assert(apg_sec_ok_from(text, 1));
                assert(apg_sec_ok_from(text, 0));
            } else if zc == 2 {
                assert(text[0] == 'w' && text[1] == c);
                assert(apg_sec_ok_from(text, 1));
                assert(apg_sec_ok_from(text, 0));
            } else if zc == 3 {
                assert(text[0] == 'x' && text[1] == c);
                assert(apg_sec_ok_from(text, 1));
                assert(apg_sec_ok_from(text, 0));
            } else {
                let d = base36_char((zc - 4) as nat);
                assert(text[0] == 'y' && text[1] == d && text[2] == c);
                assert(is_base36_digit(d));
                assert(apg_sec_ok_from(text, 2));
                assert(apg_sec_ok_from(text, 0));
            }
        } else {
            lemma_strip_ok(rows, r, w, x + 1, zc + 1);
        }
    }
}

proof fn lemma_strip_cols(rows: Rows, r: int, w: int, x: int, zc: nat)
    ensures
        strip_cols(rows, r, w, x, zc).len() <= zc + (if w > x {
            w - x
        } else {
            0
        }),
        strip_cols(rows, r, w, x, zc).len() == 0 ==> forall|x2: int| x <= x2 < w ==> #[trigger] col_of(rows, x2, r) == 0,
        strip_cols(rows, r, w, x, zc).len() > 0 ==> strip_cols(rows, r, w, x, zc).len() > zc && forall|x2: int|
            x + strip_cols(rows, r, w, x, zc).len() - zc <= x2 < w ==> #[trigger] col_of(rows, x2, r) == 0,
        forall|j: int|
            0 <= j < strip_cols(rows, r, w, x, zc).len() ==> #[trigger] strip_cols(rows, r, w, x, zc)[j] == (if j < zc {
                0
            } else {
                col_of(rows, x + j - zc, r)
            }),
    decreases w - x,
{
    if x < w {
        let v = col_of(rows, x, r);
        if v != 0 {
            lemma_strip_cols(rows, r, w, x + 1, 0);
            let t = strip_cols(rows, r, w, x + 1, 0);
            let sc = zeros(zc) + seq![v] + t;
            assert(strip_cols(rows, r, w, x, zc) == sc);
            assert forall|j: int| 0 <= j < sc.len() implies #[trigger] sc[j] == (if j < zc {
                0
            } else {
                col_of(rows, x + j - zc, r)
            }) by {
                if j > zc {
                    assert(sc[j] == t[j - zc - 1]);
                }
            }
        } else {
            lemma_strip_cols(rows, r, w, x + 1, zc + 1);
        }
    }
}

proof fn lemma_col_bit(rows: Rows, x: int, r: int, k: int)
    requires
        0 <= k < 5,
    ensures
        bit(col_of(rows, x, r), k) == (alive_bit(rows, x, 5 * r + k) == 1),
{
    let b0 = alive_bit(rows, x, 5 * r);
    let b1 = alive_bit(rows, x, 5 * r + 1);
    let b2 = alive_bit(rows, x, 5 * r + 2);
    let b3 = alive_bit(rows, x, 5 * r + 3);
    let b4 = alive_bit(rows, x, 5 * r + 4);
    let v = col_of(rows, x, r);
    assert(v == b0 + 2 * b1 + 4 * b2 + 8 * b3 + 16 * b4);
    if k == 0 {
        assert(((v >> 0u32) & 1 == 1) == (b0 == 1)) by (bit_vector)
            requires
                v == b0 + 2 * b1 + 4 * b2 + 8 * b3 + 16 * b4,
                b0 <= 1,
                b1 <= 1,
                b2 <= 1,
                b3 <= 1,
                b4 <= 1,
        ;
    } else if k == 1 {
        assert(((v >> 1u32) & 1 == 1) == (b1 == 1)) by (bit_vector)
            requires
                v == b0 + 2 * b1 + 4 * b2 + 8 * b3 + 16 * b4,
                b0 <= 1,
                b1 <= 1,
                b2 <= 1,
                b3 <= 1,
                b4 <= 1,
        ;
    } else if k == 2 {
        assert(((v >> 2u32) & 1 == 1) == (b2 == 1)) by (bit_vector)
            requires
                v == b0 + 2 * b1 + 4 * b2 + 8 * b3 + 16 * b4,
                b0 <= 1,
                b1 <= 1,
                b2 <= 1,
                b3 <= 1,
                b4 <= 1,
        ;
    } else if k == 3 {
        assert(((v >> 3u32) & 1 == 1) == (b3 == 1)) by (bit_vector)
            requires
                v == b0 + 2 * b1 + 4 * b2 + 8 * b3 + 16 * b4,
                b0 <= 1,
                b1 <= 1,
                b2 <= 1,
                b3 <= 1,
                b4 <= 1,
        ;
    } else {
        assert(((v >> 4u32) & 1 == 1) == (b4 == 1)) by (bit_vector)
            requires
                v == b0 + 2 * b1 + 4 * b2 + 8 * b3 + 16 * b4,
                b0 <= 1,
                b1 <= 1,
                b2 <= 1,
                b3 <= 1,
                b4 <= 1,
        ;
    }
}

proof fn lemma_strip_text_chars(rows: Rows, r: int, w: int, x: int, zc: nat)
    requires
        apg_row_ok(rows, r, w, x, zc),
    ensures
        forall|i: int|
            0 <= i < apg_row_text(rows, r, w, x, zc).len() ==> #[trigger] apg_row_text(rows, r, w, x, zc)[i] != 'z'
                && apg_row_text(rows, r, w, x, zc)[i] != '_',
    decreases w - x,
{
    if x < w {
        let v = col_of(rows, x, r);
        lemma_col_bound(rows, x, r);
        if v != 0 {
            lemma_strip_text_chars(rows, r, w, x + 1, 0);
            lemma_col_char(v);
            let rest = apg_row_text(rows, r, w, x + 1, 0);
            let p = zero_code(zc) + seq![base36_char(v as nat)];
            assert(apg_row_text(rows, r, w, x, zc) == p + rest);
            assert forall|i: int| 0 <= i < (p + rest).len() implies #[trigger] (p + rest)[i] != 'z' && (p + rest)[i]
                != '_' by {
                if i >= p.len() {
                    assert((p + rest)[i] == rest[i - p.len()]);
                } else if i == p.len() - 1 {
                    assert((p + rest)[i] == base36_char(v as nat));
                } else {
                    assert(zc <= 29);
                    assert((p + rest)[i] == zero_code(zc)[i]);
                    if zc >= 4 && i == 1 {
                        assert(zero_code(zc)[1] == base36_char((zc - 4) as nat));
                    }
                }
            }
            assert forall|i: int| 0 <= i < apg_row_text(rows, r, w, x, zc).len() implies #[trigger] apg_row_text(rows, r, w, x, zc)[i] != 'z'
                && apg_row_text(rows, r, w, x, zc)[i] != '_' by {
                assert(apg_row_text(rows, r, w, x, zc)[i] == (p + rest)[i]);
            }
        } else {
            lemma_strip_text_chars(rows, r, w, x + 1, zc + 1);
            assert(apg_row_text(rows, r, w, x, zc) == apg_row_text(rows, r, w, x + 1, zc + 1));
        }
    }
}

/// The strips written, apart, are the strips of the body.
proof fn lemma_body_split(rows: Rows, w: int, n: int)
    requires
        n >= 1,
        forall|r: int| 0 <= r < n ==> #[trigger] apg_row_ok(rows, r, w, 0, 0),
    ensures
        apg_body(rows, w, n).len() > 0,
        apg_body(rows, w, n).last() == 'z',
        split_on(apg_body(rows, w, n).drop_last(), 'z') == Seq::new(n as nat, |r: int| apg_row_text(rows, r, w, 0, 0)),
    decreases n,
{
    let t = apg_row_text(rows, n - 1, w, 0, 0);
    assert(apg_row_ok(rows, n - 1, w, 0, 0));
    lemma_strip_text_chars(rows, n - 1, w, 0, 0);
    let b = apg_body(rows, w, n);
    let prev = apg_body(rows, w, n - 1);
    assert(b == prev + t + seq!['z']);
    assert(b.drop_last() =~= prev + t);
    assert forall|i: int| 0 <= i < t.len() implies t[i] != 'z' by {
        assert(apg_row_text(rows, n - 1, w, 0, 0)[i] != 'z');
    }
    if n == 1 {
        assert(prev =~= Seq::<char>::empty());
        assert(prev + t =~= t);
        crate::text::lemma_split_on_single(t, 'z');
        assert(seq![t] =~= Seq::new(1nat, |r: int| apg_row_text(rows, r, w, 0, 0)));
    } else {
        lemma_body_split(rows, w, n - 1);
        assert(prev =~= prev.drop_last().push('z'));
        crate::text::lemma_split_on_join(prev.drop_last(), t, 'z');
        assert(prev.drop_last().push('z') + t =~= prev + t);
        assert(Seq::new((n - 1) as nat, |r: int| apg_row_text(rows, r, w, 0, 0)).push(t) =~= Seq::new(
            n as nat,
            |r: int| apg_row_text(rows, r, w, 0, 0),
        ));
    }
}

proof fn lemma_max_cols_le(secs: Seq<Seq<char>>, b: nat)
    requires
        forall|k: int| 0 <= k < secs.len() ==> apg_cols(#[trigger] secs[k]).len() <= b,
    ensures
        max_cols(secs) <= b,
    decreases secs.len(),
{
    if secs.len() > 0 {
        assert forall|k: int| 0 <= k < secs.drop_last().len() implies apg_cols(#[trigger] secs.drop_last()[k]).len() <= b by {
            assert(secs.drop_last()[k] == secs[k]);
        }
        lemma_max_cols_le(secs.drop_last(), b);
        assert(secs.last() == secs[secs.len() - 1]);
    }
}

/// Reading back the apgcode that a grid writes (with no classification) gives its live
/// cells, as faction 0: cut after the last column that holds a live cell, and filled with
/// dead rows to whole strips of five. This holds for every grid the writer takes (no run
/// of empty columns before a live column longer than 29). Within the size limit the text
/// is one the reader takes.
pub proof fn law_apgcode_round_trip(rows: Rows, w: int, h: int)
    requires
        rows_wf(rows, w, h),
        w >= 0,
        h > 0,
        apg_writable(rows, w, h),
    ensures
        ({
            let secs = apg_secs(apgcode_text(None, None, rows, w, h));
            let cw = max_cols(secs) as int;
            &&& w <= max_dim() && h <= max_dim() ==> apg_ok(apgcode_text(None, None, rows, w, h))
            &&& secs.len() == strip_count(h)
            &&& cw <= w
            &&& forall|y: int, x: int| 0 <= y < h && cw <= x < w ==> !(#[trigger] rows[y][x]).spec_is_alive()
            &&& forall|y: int, x: int|
                0 <= y < secs.len() * 5 && 0 <= x < cw ==> #[trigger] apg_rows(secs, cw)[y][x] == (if cell_at(
                    rows,
                    x,
                    y,
                ).spec_is_alive() {
                    cell_of(packed(1, 0))
                } else {
                    dead_cell()
                })
        }),
{
    let n = strip_count(h);
    let body = apg_body(rows, w, n);
    let text = apgcode_text(None, None, rows, w, h);
    lemma_body_split(rows, w, n);
    let us = seq!['_'];
    assert(text =~= us + body.drop_last()) by {
        assert((Seq::<char>::empty() + Seq::<char>::empty()) + us =~= us);
    }
    assert(crate::text::occurs_at(text, us, 0)) by {
        assert(text.subrange(0, 1) =~= us);
    }
    assert(crate::text::find_from(text, us, 0) == Some(0int));
    assert(text.subrange(1, text.len() as int) =~= body.drop_last());
    let secs = apg_secs(text);
    assert(secs == Seq::new(n as nat, |r: int| apg_row_text(rows, r, w, 0, 0)));
    let cw = max_cols(secs) as int;
    assert forall|r: int| 0 <= r < n implies #[trigger] apg_cols(secs[r]) == strip_cols(rows, r, w, 0, 0)
        && strip_cols(rows, r, w, 0, 0).len() <= w by {
        lemma_strip_read(rows, r, w, 0, 0);
        lemma_strip_cols(rows, r, w, 0, 0);
    }
    lemma_max_cols(secs);
    lemma_max_cols_le(secs, w as nat);
    assert forall|k: int| 0 <= k < secs.len() implies apg_sec_ok_from(#[trigger] secs[k], 0) by {
        lemma_strip_ok(rows, k, w, 0, 0);
    }
    assert(split_once(text, us) == Some((text.subrange(0, 0), text.subrange(1, text.len() as int))));
    assert forall|y: int, x: int| 0 <= y < h && cw <= x < w implies !(#[trigger] rows[y][x]).spec_is_alive() by {
        let r = y / 5;
        let k = y % 5;
        assert(0 <= r < n);
        lemma_strip_cols(rows, r, w, 0, 0);
        assert(apg_cols(secs[r]).len() <= cw);
        assert(col_of(rows, x, r) == 0);
        lemma_col_bit(rows, x, r, k);
        lemma_bit_of_zero(k as u32);
        assert(5 * r + k == y);
        assert(cell_at(rows, x, y) == rows[y][x]);
    }
    assert forall|y: int, x: int| 0 <= y < secs.len() * 5 && 0 <= x < cw implies #[trigger] apg_rows(secs, cw)[y][x] == (if cell_at(
        rows,
        x,
        y,
    ).spec_is_alive() {
        cell_of(packed(1, 0))
    } else {
        dead_cell()
    }) by {
        let r = y / 5;
        let k = y % 5;
        assert(0 <= r < n);
        assert(5 * r + k == y);
        let sc = strip_cols(rows, r, w, 0, 0);
        lemma_strip_cols(rows, r, w, 0, 0);
        lemma_col_bit(rows, x, r, k);
        if x < sc.len() {
            assert(sc[x] == col_of(rows, x, r));
        } else {
            assert(col_of(rows, x, r) == 0);
            lemma_bit_of_zero(k as u32);
        }
    }
}


proof fn lemma_find_skip(s: Seq<char>, sep: Seq<char>, i: int, k: int)
    requires
        sep.len() > 0,
        0 <= i <= k,
        k + sep.len() <= s.len(),
        forall|j: int| i <= j < k ==> #[trigger] s[j] != sep[0],
    ensures
        find_from(s, sep, i) == find_from(s, sep, k),
    decreases k - i,
{
    if i < k {
        assert(s.subrange(i, i + sep.len())[0] == s[i]);
        assert(!occurs_at(s, sep, i));
        lemma_find_skip(s, sep, i + 1, k);
    }
}

proof fn lemma_not_prefix(l: Seq<char>, pre: Seq<char>, j: int)
    requires
        0 <= j < pre.len(),
        j < l.len(),
        l[j] != pre[j],
    ensures
        !starts_with(l, pre),
{
    if pre.len() <= l.len() {
        assert(l.take(pre.len() as int)[j] == l[j]);
    }
}

proof fn lemma_class_match_skip(l: Seq<char>, i: int, k: int)
    requires
        0 <= i <= k <= 12,
        forall|j: int| i <= j < k ==> !starts_with(l, #[trigger] class_word(j)),
    ensures
        class_match_from(l, i) == class_match_from(l, k),
    decreases k - i,
{
    if i < k {
        lemma_class_match_skip(l, i + 1, k);
    }
}

/// A prefix that begins with the word of classification `c` (one whose word holds no `_`)
/// is matched to `c`.
proof fn lemma_class_match(c: Classification, l: Seq<char>)
    requires
        !(c is Explosive || c is Linear || c is Quadratic || c is Replicator),
        starts_with(l, class_word(class_index(c))),
    ensures
        class_match_from(l, 0) == Some(class_index(c)),
        class_at(class_index(c)) == c,
{
    let k = class_index(c);
    let cw = class_word(k);
    assert(forall|j: int| 0 <= j < cw.len() ==> l[j] == #[trigger] cw[j]) by {
        assert forall|j: int| 0 <= j < cw.len() implies l[j] == #[trigger] cw[j] by {
            assert(l.take(cw.len() as int)[j] == l[j]);
        }
    }
    assert forall|j: int| 0 <= j < k implies !starts_with(l, #[trigger] class_word(j)) by {
        let wj = class_word(j);
        if k <= 3 {
            if k == 3 {
                lemma_not_prefix(l, wj, 0);
            } else {
                lemma_not_prefix(l, wj, 1);
            }
        } else if k == 11 {
            lemma_not_prefix(l, wj, 0);
        } else if j <= 3 {
            lemma_not_prefix(l, wj, 0);
        } else {
            lemma_not_prefix(l, wj, 2);
        }
    }
    lemma_class_match_skip(l, 0, k);
}

/// The classification and number an apgcode is written with read back as they were, and
/// the strips read are those of the code written without them. This holds for the
/// classifications whose prefix holds no `_` (the reader cuts the prefix at the first
/// `_`, so the `zz_` classifications read back as none) and a grid at least one row high.
pub proof fn law_apgcode_prefix_round_trip(c: Classification, p: Option<u32>, rows: Rows, w: int, h: int)
    requires
        !(c is Explosive || c is Linear || c is Quadratic || c is Replicator),
        h > 0,
    ensures
        ({
            let text = apgcode_text(Some(c), p, rows, w, h);
            let plain = apgcode_text(None, None, rows, w, h);
            &&& split_once(text, seq!['_']) is Some
            &&& classification_of(split_once(text, seq!['_']).unwrap().0) == (Some(c), p)
            &&& apg_secs(text) == apg_secs(plain)
            &&& apg_ok(text) == apg_ok(plain)
        }),
{
    let n = strip_count(h);
    let body = apg_body(rows, w, n);
    assert(body.len() > 0);
    let cw = class_word(class_index(c));
    let dp = match p {
        Some(v) => decimal(v as nat),
        None => Seq::<char>::empty(),
    };
    let us = seq!['_'];
    let text = apgcode_text(Some(c), p, rows, w, h);
    let plain = apgcode_text(None, None, rows, w, h);
    let rest = body.drop_last();
    assert(text =~= cw + dp + us + rest);
    assert(plain =~= us + rest);
    let l: int = (cw.len() + dp.len()) as int;
    match p {
        Some(v) => {
            lemma_decimal_digits(v as nat);
        },
        None => {},
    }
    assert forall|j: int| 0 <= j < l implies #[trigger] text[j] != us[0] by {
        if j < cw.len() {
            assert(text[j] == cw[j]);
        } else {
            assert(text[j] == dp[j - cw.len()]);
        }
    }
    lemma_find_skip(text, us, 0, l);
    assert(text.subrange(l, l + 1) =~= us);
    assert(find_from(text, us, l) == Some(l));
    let head = text.subrange(0, l);
    assert(head =~= cw + dp);
    assert(text.subrange(l + 1, text.len() as int) =~= rest);
    assert(plain.subrange(0, 1) =~= us);
    assert(find_from(plain, us, 0) == Some(0int));
    assert(plain.subrange(1, plain.len() as int) =~= rest);
    assert(head.take(cw.len() as int) =~= cw);
    lemma_class_match(c, head);
    match p {
        Some(v) => {
            assert(head.skip(cw.len() as int) =~= dp);
            assert(is_digit(dp[0]));
            assert(all_digits(dp));
            assert(parse_u32(dp) == Some(v));
        },
        None => {},
    }
}

} // verus!
