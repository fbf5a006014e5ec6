use vstd::prelude::*;

use super::{cell_of, packed, Cell};
use vstd::arithmetic::power::{lemma_pow_increases, pow};
use crate::text::{dec_value, decimal, digit_char, digit_value, is_digit};

verus! {

/// A life-like rule, stored as four lookup tables (one per cell state).
/// Entry `lut[state]` holds, at bits `2n..2n+1`, the next state of a cell in
/// `state` with `n` neighbours.
#[derive(PartialEq, Eq, Debug, Clone, Copy)]
pub struct LifeRule {
    lut: [u32; 4],
}

/// The two-bit field for `n` neighbours in a lookup table entry.
pub open spec fn lut_field(entry: u32, n: u8) -> u8 {
    ((entry & (3u32 << (n * 2) as u32)) >> (n * 2) as u32) as u8
}

/// Number of `'/'` characters in `s`.
pub open spec fn slash_count(s: Seq<char>) -> nat
    decreases s.len(),
{
    if s.len() == 0 {
        0
    } else {
        slash_count(s.drop_last()) + if s.last() == '/' {
            1nat
        } else {
            0nat
        }
    }
}

/// Bit `2d` for every digit `d` written in the `k`-th `'/'`-separated portion of `s`.
pub open spec fn portion_mask(s: Seq<char>, k: nat) -> u32
    decreases s.len(),
{
    if s.len() == 0 {
        0
    } else {
        let c = s.last();
        let p = s.drop_last();
        portion_mask(p, k) | (if is_digit(c) && slash_count(p) == k {
            1u32 << (2 * digit_value(c)) as u32
        } else {
            0u32
        })
    }
}

/// The third portion (the number of generation states) holds the digit 4.
pub open spec fn has_four_states(s: Seq<char>) -> bool
    decreases s.len(),
{
    if s.len() == 0 {
        false
    } else {
        has_four_states(s.drop_last()) || (s.last() == '4' && slash_count(s.drop_last()) == 2)
    }
}

/// Every digit of the third portion is 3 or 4, the only state counts supported.
pub open spec fn states_portion_supported(s: Seq<char>) -> bool
    decreases s.len(),
{
    if s.len() == 0 {
        true
    } else {
        let c = s.last();
        states_portion_supported(s.drop_last()) && (is_digit(c) && slash_count(s.drop_last()) == 2
            ==> c == '3' || c == '4')
    }
}

/// `m` with, for each of the neighbour counts `0..i` whose survival bit is clear,
/// the field set to 2 (the cell turns refractory instead of dying).
pub open spec fn refractory_fill(m: u32, i: nat) -> u32
    decreases i,
{
    if i == 0 {
        m
    } else {
        let k = (i - 1) as nat;
        let r = refractory_fill(m, k);
        if m & (1u32 << (2 * k) as u32) == 0 {
            r | (2u32 << (2 * k) as u32)
        } else {
            r
        }
    }
}

/// All cells in the refractory state 2 move on to state 3.
pub open spec fn refractory_all() -> u32 {
    0x3FFFF
}

/// The lookup tables that a rule string describes.
pub open spec fn rule_lut(s: Seq<char>) -> Seq<u32> {
    let first = portion_mask(s, 0);
    let second = portion_mask(s, 1);
    let births = if s.len() > 0 && s[0] == 'B' {
        first
    } else {
        second
    };
    let survives = if s.len() > 0 && s[0] == 'B' {
        second
    } else {
        first
    };
    if has_four_states(s) {
        seq![births, refractory_fill(survives, 9), refractory_all(), 0u32]
    } else {
        seq![births, survives, 0u32, 0u32]
    }
}

/// Bit `2i` of `m` is set.
pub open spec fn count_bit(m: u32, i: nat) -> bool {
    m & (1u32 << (2 * i) as u32) != 0
}

/// The number printed for the birth counts: the set counts in `1..=k` as decimal digits.
pub open spec fn births_number(m: u32, k: nat) -> u32
    decreases k,
{
    if k == 0 {
        0
    } else {
        let b = births_number(m, (k - 1) as nat);
        if count_bit(m, k) {
            (b * 10 + k) as u32
        } else {
            b
        }
    }
}

/// The number printed for the survival counts: the set counts in `1..=k` as decimal digits.
pub open spec fn survives_number(m: u32, k: nat) -> u32
    decreases k,
{
    if k == 0 {
        0
    } else {
        let b = survives_number(m, (k - 1) as nat);
        if count_bit(m, k) {
            (b * 10 + k) as u32
        } else {
            b
        }
    }
}

impl LifeRule {
    /// The four lookup tables.
    pub closed spec fn spec_lut(self) -> Seq<u32> {
        self.lut@
    }

    pub open spec fn spec_is_generations(self) -> bool {
        self.spec_lut()[2] != 0
    }

    pub open spec fn spec_next_state(self, state: u8, neighbors: u8) -> u8 {
        lut_field(self.spec_lut()[state as int], neighbors)
    }

    /// The cell that `update` produces.
    pub open spec fn spec_update(self, state: u8, neighbors: u8, faction: u8) -> Cell {
        cell_of(packed(self.spec_next_state(state, neighbors), faction))
    }

    /// The text `to_str` produces.
    pub open spec fn spec_to_str(self) -> Seq<char> {
        let base = seq!['B'] + decimal(births_number(self.spec_lut()[0], 8) as nat) + seq!['/', 'S']
            + decimal(survives_number(self.spec_lut()[1], 8) as nat);
        if self.spec_is_generations() {
            base + seq!['/', '4']
        } else {
            base
        }
    }

    pub fn new(lut: [u32; 4]) -> (r: Self)
        ensures
            r.spec_lut() == lut@,
    {
        Self { lut }
    }

    /// Conway's Game of Life, B3/S23.
    pub closed spec fn gol_spec() -> Self {
        Self { lut: [0b1_00_00_00u32, 0b01_01_00_00u32, 0u32, 0u32] }
    }

    /// Conway's Game of Life, B3/S23.
    /// Under Conway's rule a dead cell with no neighbours stays dead.
    pub proof fn lemma_gol_quiet()
        ensures
            Self::gol_spec().spec_next_state(0, 0) == 0,
    {
        assert(((0b1_00_00_00u32 & (3u32 << 0u32)) >> 0u32) as u8 == 0) by (bit_vector);
        assert(Self::gol_spec().spec_lut()[0] == 0b1_00_00_00u32);
        assert(lut_field(0b1_00_00_00u32, 0) == ((0b1_00_00_00u32 & (3u32 << 0u32)) >> 0u32) as u8);
    }

    pub fn gol() -> (r: Self)
        ensures
            r.spec_lut() == seq![0b1_00_00_00u32, 0b01_01_00_00u32, 0u32, 0u32],
            r == Self::gol_spec(),
    {
        let r = Self { lut: [0b1_00_00_00u32, 0b01_01_00_00u32, 0u32, 0u32] };
        assert(r.lut@ =~= seq![0b1_00_00_00u32, 0b01_01_00_00u32, 0u32, 0u32]);
        r
    }

    /// Star Wars, B2/S345/4.
    pub fn star_wars() -> (r: Self)
        ensures
            r.spec_lut() == seq![
                0b1_00_00u32,
                0b10_10_10_01_01_01_10_10_10u32,
                0b11_11_11_11_11_11_11_11_11u32,
                0u32,
            ],
    {
        let r = Self {
            lut: [0b1_00_00u32, 0b10_10_10_01_01_01_10_10_10u32, 0b11_11_11_11_11_11_11_11_11u32, 0u32],
        };
        assert(r.lut@ =~= seq![
            0b1_00_00u32,
            0b10_10_10_01_01_01_10_10_10u32,
            0b11_11_11_11_11_11_11_11_11u32,
            0u32,
        ]);
        r
    }

    /// The rule has refractory states (a Generations rule).
    pub fn is_generations(&self) -> (r: bool)
        ensures
            r == self.spec_is_generations(),
    {
        self.lut[2] != 0
    }

    /// Parse `BXX/SXX`, `BXX/SXX/N`, or the survival-first form `SS/BB/N`
    /// (see <https://conwaylife.com/wiki/Rulestring>). `N` may be 3 or 4.
    pub fn from_str(s: &str) -> (r: Self)
        requires
            states_portion_supported(s@),
        ensures
            r.spec_lut() == rule_lut(s@),
    {
        let cs = crate::text::chars_of(s);
        let n = cs.len();
        let mut first: u32 = 0;
        let mut second: u32 = 0;
        let mut four = false;
        let mut slashes: usize = 0;
        let mut i: usize = 0;
        while i < n
            invariant
                n == cs@.len(),
                cs@ == s@,
                i <= n,
                states_portion_supported(s@),
                slashes == slash_count(cs@.take(i as int)),
                slashes <= i,
                first == portion_mask(cs@.take(i as int), 0),
                second == portion_mask(cs@.take(i as int), 1),
                four == has_four_states(cs@.take(i as int)),
                states_portion_supported(cs@.take(i as int)),
            decreases n - i,
        {
            let c = cs[i];
            proof {
                let t = cs@.take(i + 1);
                assert(t.drop_last() =~= cs@.take(i as int));
                assert(t.last() == c);
                lemma_supported_prefix(cs@, (i + 1) as nat);
                lemma_slash_count_prefix(cs@, i as nat);
                let f = first;
                let g = second;
                assert(f | 0u32 == f && g | 0u32 == g) by (bit_vector);
            }
            if c == '/' {
                slashes = slashes + 1;
            } else if c >= '0' && c <= '9' {
                let d: u32 = (c as u32) - ('0' as u32);
                let bit: u32 = 1u32 << (2 * d);
                if slashes == 0 {
                    first = first | bit;
                } else if slashes == 1 {
                    second = second | bit;
                } else if slashes == 2 {
                    if c == '4' {
                        four = true;
                    }
                }
            }
            i = i + 1;
        }
        assert(cs@.take(n as int) =~= s@);
        let starts_b = n > 0 && cs[0] == 'B';
        let births = if starts_b {
            first
        } else {
            second
        };
        let survives = if starts_b {
            second
        } else {
            first
        };
        let r = if four {
            Self { lut: [births, fill_refractory(survives), 0x3FFFFu32, 0u32] }
        } else {
            Self { lut: [births, survives, 0u32, 0u32] }
        };
        assert(r.lut@ =~= rule_lut(s@));
        r
    }

    /// The rule string, `B<births>/S<survives>`, with `/4` for a Generations rule.
    pub fn to_str(&self) -> (r: String)
        ensures
            r@ == self.spec_to_str(),
    {
        let b_mask = self.lut[0];
        let s_mask = self.lut[1];
        let mut births: u32 = 0;
        let mut survives: u32 = 0;
        let mut bound: u32 = 1;
        let mut i: u32 = 1;
        while i < 9
            invariant
                1 <= i <= 9,
                b_mask == self.spec_lut()[0],
                s_mask == self.spec_lut()[1],
                births == births_number(b_mask, (i - 1) as nat),
                survives == survives_number(s_mask, (i - 1) as nat),
                bound == pow10((i - 1) as nat),
                births + 2 <= 2 * bound,
                survives + 2 <= 2 * bound,
                bound <= 100_000_000,
            decreases 9 - i,
        {
            proof {
                lemma_pow10_step((i - 1) as nat);
                lemma_pow10_small((i - 1) as nat);
            }
            let bit: u32 = 1u32 << (i * 2);
            if (b_mask & bit) != 0 {
                births = births * 10 + i;
            }
            if (s_mask & bit) != 0 {
                survives = survives * 10 + i;
            }
            bound = bound * 10;
            i = i + 1;
        }
        let mut out = crate::text::new_string();
        crate::text::push_char(&mut out, 'B');
        let bd = crate::text::decimal_chars(births as u64);
        crate::text::push_chars(&mut out, &bd);
        crate::text::push_char(&mut out, '/');
        crate::text::push_char(&mut out, 'S');
        let sd = crate::text::decimal_chars(survives as u64);
        crate::text::push_chars(&mut out, &sd);
        if self.lut[2] != 0 {
            crate::text::push_char(&mut out, '/');
            crate::text::push_char(&mut out, '4');
        }
        assert(out@ =~= self.spec_to_str());
        out
    }

    /// The cell that a cell in `state`, with `neighbors` live neighbours of the leading
    /// `faction`, becomes.
    pub fn update(&self, state: u8, neighbors_faction: (u8, u8)) -> (c: Cell)
        requires
            state < 4,
            neighbors_faction.0 < 16,
        ensures
            c == self.spec_update(state, neighbors_faction.0, neighbors_faction.1),
    {
        let (neighbors, faction) = neighbors_faction;
        Cell::new(self.state_update_f(state, neighbors), faction)
    }

    fn state_update_f(&self, state: u8, neighbors: u8) -> (r: u8)
        requires
            state < 4,
            neighbors < 16,
        ensures
            r == self.spec_next_state(state, neighbors),
    {
        let shift: u32 = neighbors as u32 * 2;
        let e = self.lut[state as usize];
        assert((e & (3u32 << shift)) >> shift <= 3) by (bit_vector)
            requires
                shift < 32,
        ;
        ((e & (3u32 << shift)) >> shift) as u8
    }
}

impl Default for LifeRule {
    fn default() -> (r: Self)
        ensures
            r.spec_lut() == seq![0b1_00_00_00u32, 0b01_01_00_00u32, 0u32, 0u32],
    {
        Self::gol()
    }
}

pub open spec fn pow10(n: nat) -> nat
    decreases n,
{
    if n == 0 {
        1
    } else {
        10 * pow10((n - 1) as nat)
    }
}

proof fn lemma_pow10_step(n: nat)
    ensures
        pow10(n + 1) == 10 * pow10(n),
{
}

proof fn lemma_pow10_small(n: nat)
    requires
        n <= 7,
    ensures
        pow10(n) <= 10_000_000,
    decreases 7 - n,
{
    if n < 7 {
        lemma_pow10_small(n + 1);
        lemma_pow10_step(n);
    } else {
        reveal_with_fuel(pow10, 8);
        assert(pow10(7) == 10_000_000);
    }
}

/// `refractory_fill(m, 9)`.
fn fill_refractory(m: u32) -> (r: u32)
    ensures
        r == refractory_fill(m, 9),
{
    let mut r = m;
    let mut i: u32 = 0;
    while i < 9
        invariant
            i <= 9,
            r == refractory_fill(m, i as nat),
        decreases 9 - i,
    {
        if m & (1u32 << (2 * i)) == 0 {
            r = r | (2u32 << (2 * i));
        }
        i = i + 1;
    }
    r
}

/// Whether `from_str` takes the rule text `v`: a digit after a second `/` is `3` or `4`.
pub fn rule_text_supported(v: &Vec<char>) -> (r: bool)
    ensures
        r == states_portion_supported(v@),
{
    let mut slashes: usize = 0;
    let mut i: usize = 0;
    proof {
        assert(v@.take(0) =~= Seq::<char>::empty());
    }
    while i < v.len()
        invariant
            i <= v.len(),
            slashes == slash_count(v@.take(i as int)),
            slashes <= i,
            states_portion_supported(v@.take(i as int)),
        decreases v.len() - i,
    {
        let c = v[i];
        proof {
            lemma_slash_count_prefix(v@, i as nat);
            assert(v@.take(i + 1).drop_last() =~= v@.take(i as int));
            assert(v@.take(i + 1).last() == c);
        }
        if '0' <= c && c <= '9' && slashes == 2 && c != '3' && c != '4' {
            proof {
                assert(!states_portion_supported(v@.take(i + 1)));
                if states_portion_supported(v@) {
                    lemma_supported_prefix(v@, (i + 1) as nat);
                }
            }
            return false;
        }
        if c == '/' {
            slashes = slashes + 1;
        }
        i = i + 1;
    }
    proof {
        assert(v@.take(v.len() as int) =~= v@);
    }
    true
}

/// The `k`-th `'/'`-separated portion of `s` holds the digit `d`.
pub open spec fn portion_has(s: Seq<char>, k: nat, d: nat) -> bool {
    exists|i: int| 0 <= i < s.len() && is_digit(s[i]) && digit_value(#[trigger] s[i]) == d && slash_count(s.take(i)) == k
}

proof fn lemma_field_or(m: u32, d: u32, n: u8)
    requires
        m & 0xAAAA_AAAAu32 == 0,
        d < 16,
        n < 16,
    ensures
        (m | (1u32 << (2 * d))) & 0xAAAA_AAAAu32 == 0,
        lut_field(m | (1u32 << (2 * d)), n) == (if n as u32 == d {
            1u8
        } else {
            lut_field(m, n)
        }),
        lut_field(m, n) <= 1,
{
    assert((m | (1u32 << (2 * d))) & 0xAAAA_AAAAu32 == 0) by (bit_vector)
        requires
            m & 0xAAAA_AAAAu32 == 0,
            d < 16,
    ;
    assert(((((m | (1u32 << (2 * d))) & (3u32 << (n * 2) as u32)) >> (n * 2) as u32) as u8) == (if n as u32 == d {
        1u8
    } else {
        (((m & (3u32 << (n * 2) as u32)) >> (n * 2) as u32) as u8)
    })) by (bit_vector)
        requires
            m & 0xAAAA_AAAAu32 == 0,
            d < 16,
            n < 16,
    ;
    assert((((m & (3u32 << (n * 2) as u32)) >> (n * 2) as u32) as u8) <= 1) by (bit_vector)
        requires
            m & 0xAAAA_AAAAu32 == 0,
            n < 16,
    ;
}

proof fn lemma_portion_mask(s: Seq<char>, k: nat, n: u8)
    requires
        n < 16,
    ensures
        portion_mask(s, k) & 0xAAAA_AAAAu32 == 0,
        lut_field(portion_mask(s, k), n) == (if portion_has(s, k, n as nat) {
            1u8
        } else {
            0u8
        }),
    decreases s.len(),
{
    if s.len() == 0 {
        assert(0u32 & 0xAAAA_AAAAu32 == 0) by (bit_vector);
        assert(((0u32 & (3u32 << (n * 2) as u32)) >> (n * 2) as u32) as u8 == 0) by (bit_vector)
            requires
                n < 16,
        ;
    } else {
        let c = s.last();
        let p = s.drop_last();
        lemma_portion_mask(p, k, n);
        let m = portion_mask(p, k);
        assert forall|i: int| 0 <= i < p.len() implies p.take(i) == #[trigger] s.take(i) && p[i] == s[i] by {
            assert(p.take(i) =~= s.take(i));
        }
        assert(s.take(s.len() - 1) =~= p);
        if is_digit(c) && slash_count(p) == k {
            let d = digit_value(c);
            assert(d < 10);
            lemma_field_or(m, d as u32, n);
            if n as nat == d {
                assert(portion_has(s, k, n as nat)) by {
                    assert(is_digit(s[s.len() - 1]) && digit_value(s[s.len() - 1]) == d);
                }
            } else {
                if portion_has(s, k, n as nat) {
                    let i = choose|i: int|
                        0 <= i < s.len() && is_digit(s[i]) && digit_value(#[trigger] s[i]) == n as nat && slash_count(s.take(i)) == k;
                    assert(i < p.len());
                    assert(portion_has(p, k, n as nat)) by {
                        assert(digit_value(p[i]) == n as nat);
                    }
                }
                if portion_has(p, k, n as nat) {
                    let i = choose|i: int|
                        0 <= i < p.len() && is_digit(p[i]) && digit_value(#[trigger] p[i]) == n as nat && slash_count(p.take(i)) == k;
                    assert(digit_value(s[i]) == n as nat);
                }
            }
        } else {
            assert(m | 0u32 == m) by (bit_vector);
            if portion_has(s, k, n as nat) {
                let i = choose|i: int|
                    0 <= i < s.len() && is_digit(s[i]) && digit_value(#[trigger] s[i]) == n as nat && slash_count(s.take(i)) == k;
                assert(i < p.len());
                assert(portion_has(p, k, n as nat)) by {
                    assert(digit_value(p[i]) == n as nat);
                }
            }
            if portion_has(p, k, n as nat) {
                let i = choose|i: int|
                    0 <= i < p.len() && is_digit(p[i]) && digit_value(#[trigger] p[i]) == n as nat && slash_count(p.take(i)) == k;
                assert(digit_value(s[i]) == n as nat);
            }
        }
    }
}

/// A rule read from text without a Generations count (such as `B3/S23`, or `23/3` with
/// survival first) updates a cell by whether its neighbour count is among the written
/// digits: a dead cell is born (state 1) exactly when the count is in the birth portion, a
/// live cell survives exactly when it is in the survival portion, and otherwise the cell is
/// dead (state 0).
pub proof fn law_rule_counts(s: Seq<char>, n: u8)
    requires
        !has_four_states(s),
        n <= 8,
    ensures
        ({
            let b: nat = if s.len() > 0 && s[0] == 'B' {
                0
            } else {
                1
            };
            let v: nat = if s.len() > 0 && s[0] == 'B' {
                1
            } else {
                0
            };
            &&& lut_field(rule_lut(s)[0], n) == (if portion_has(s, b, n as nat) {
                1u8
            } else {
                0u8
            })
            &&& lut_field(rule_lut(s)[1], n) == (if portion_has(s, v, n as nat) {
                1u8
            } else {
                0u8
            })
        }),
{
    lemma_portion_mask(s, 0, n);
    lemma_portion_mask(s, 1, n);
}

proof fn lemma_supported_prefix(s: Seq<char>, k: nat)
    requires
        states_portion_supported(s),
        k <= s.len(),
    ensures
        states_portion_supported(s.take(k as int)),
    decreases s.len() - k,
{
    if k < s.len() {
        lemma_supported_prefix(s, k + 1);
        assert(s.take(k as int + 1).drop_last() =~= s.take(k as int));
    } else {
        assert(s.take(k as int) =~= s);
    }
}

proof fn lemma_slash_count_prefix(s: Seq<char>, k: nat)
    requires
        k < s.len(),
    ensures
        slash_count(s.take(k as int + 1)) == slash_count(s.take(k as int)) + if s[k as int] == '/' {
            1nat
        } else {
            0nat
        },
{
    assert(s.take(k as int + 1).drop_last() =~= s.take(k as int));
}


/// Digits `1` to `8`, each larger than the one before.
pub open spec fn rising_counts(d: Seq<char>) -> bool {
    &&& forall|j: int| 0 <= j < d.len() ==> '1' <= #[trigger] d[j] <= '8'
    &&& forall|i: int, j: int| 0 <= i < j < d.len() ==> #[trigger] d[i] < #[trigger] d[j]
}

proof fn lemma_slash_concat(a: Seq<char>, b: Seq<char>)
    ensures
        slash_count(a + b) == slash_count(a) + slash_count(b),
    decreases b.len(),
{
    if b.len() == 0 {
        assert(a + b =~= a);
    } else {
        lemma_slash_concat(a, b.drop_last());
        assert((a + b).drop_last() =~= a + b.drop_last());
    }
}

proof fn lemma_no_slash(d: Seq<char>)
    requires
        forall|j: int| 0 <= j < d.len() ==> #[trigger] d[j] != '/',
    ensures
        slash_count(d) == 0,
    decreases d.len(),
{
    if d.len() > 0 {
        lemma_no_slash(d.drop_last());
        assert(d[d.len() - 1] != '/');
    }
}

proof fn lemma_count_bit(m: u32, i: u8)
    requires
        m & 0xAAAA_AAAAu32 == 0,
        i < 16,
    ensures
        count_bit(m, i as nat) == (lut_field(m, i) == 1),
{
    assert((m & (1u32 << (2 * i) as u32) != 0) == ((((m & (3u32 << (i * 2) as u32)) >> (i * 2) as u32) as u8) == 1))
        by (bit_vector)
        requires
            m & 0xAAAA_AAAAu32 == 0,
            i < 16,
    ;
}

/// The number a mask writes for counts up to `k` is the digits it holds that are at most
/// `k`, read in decimal: a prefix of the rising digits `d` that the mask holds.
proof fn lemma_counts_number(m: u32, d: Seq<char>, k: nat) -> (c: int)
    requires
        rising_counts(d),
        k <= 8,
        forall|i: nat|
            1 <= i <= 8 ==> (count_bit(m, i) <==> exists|j: int| 0 <= j < d.len() && digit_value(#[trigger] d[j]) == i),
    ensures
        0 <= c <= d.len(),
        forall|j: int| 0 <= j < c ==> digit_value(#[trigger] d[j]) <= k,
        forall|j: int| c <= j < d.len() ==> digit_value(#[trigger] d[j]) > k,
        births_number(m, k) == dec_value(d.take(c)),
        survives_number(m, k) == dec_value(d.take(c)),
        dec_value(d.take(c)) < pow(10, k),
    decreases k,
{
    reveal(pow);
    if k == 0 {
        assert(d.take(0) =~= Seq::<char>::empty());
        assert(dec_value(Seq::<char>::empty()) == 0);
        assert forall|j: int| 0 <= j < d.len() implies digit_value(#[trigger] d[j]) > 0 by {
            assert('1' <= d[j] <= '8');
        }
        0
    } else {
        let c0 = lemma_counts_number(m, d, (k - 1) as nat);
        assert(pow(10, k) == 10 * pow(10, (k - 1) as nat));
        lemma_pow_increases(10, (k - 1) as nat, 7);
        assert(pow(10, 7) == 10000000) by {
            reveal_with_fuel(pow, 8);
        }
        if count_bit(m, k) {
            let j = choose|j: int| 0 <= j < d.len() && digit_value(#[trigger] d[j]) == k;
            assert(j >= c0);
            if j > c0 {
                assert(d[c0] < d[j]);
                assert(digit_value(d[c0]) > k - 1);
                assert(false);
            }
            assert(d.take(c0 + 1).drop_last() =~= d.take(c0));
            assert(d.take(c0 + 1).last() == d[c0]);
            assert forall|jj: int| c0 + 1 <= jj < d.len() implies digit_value(#[trigger] d[jj]) > k by {
                assert(d[c0] < d[jj]);
            }
            c0 + 1
        } else {
            assert forall|jj: int| c0 <= jj < d.len() implies digit_value(#[trigger] d[jj]) > k by {
                assert(digit_value(d[jj]) > k - 1);
                if digit_value(d[jj]) == k {
                    assert(exists|j: int| 0 <= j < d.len() && digit_value(#[trigger] d[j]) == k);
                }
            }
            c0
        }
    }
}

/// Rising digits written as a number and back in decimal give the digits.
proof fn lemma_decimal_of_counts(d: Seq<char>)
    requires
        rising_counts(d),
        d.len() > 0,
    ensures
        decimal(dec_value(d)) == d,
        dec_value(d) >= 1,
    decreases d.len(),
{
    let v = digit_value(d.last());
    assert('1' <= d[d.len() - 1] <= '8');
    assert(digit_char(v) == d.last());
    if d.len() == 1 {
        assert(d.drop_last() =~= Seq::<char>::empty());
        assert(dec_value(Seq::<char>::empty()) == 0);
        assert(dec_value(d) == v);
        assert(decimal(v) =~= d);
    } else {
        let p = d.drop_last();
        assert(rising_counts(p)) by {
            assert forall|j: int| 0 <= j < p.len() implies '1' <= #[trigger] p[j] <= '8' by {
                assert(p[j] == d[j]);
            }
            assert forall|i: int, j: int| 0 <= i < j < p.len() implies #[trigger] p[i] < #[trigger] p[j] by {
                assert(p[i] == d[i] && p[j] == d[j]);
            }
        }
        lemma_decimal_of_counts(p);
        let n = dec_value(d);
        assert(n == dec_value(p) * 10 + v);
        assert(n >= 10);
        assert(n / 10 == dec_value(p));
        assert(n % 10 == v);
        assert(decimal(n) == decimal(n / 10).push(digit_char(n % 10)));
        assert(decimal(n) =~= d);
    }
}


/// The rule text `B<b>/S<v>`.
pub open spec fn bs_text(b: Seq<char>, v: Seq<char>) -> Seq<char> {
    seq!['B'] + b + seq!['/', 'S'] + v
}

proof fn lemma_bs_slashes(b: Seq<char>, v: Seq<char>, i: int)
    requires
        rising_counts(b),
        rising_counts(v),
        0 <= i <= bs_text(b, v).len(),
    ensures
        slash_count(bs_text(b, v).take(i)) == (if i <= b.len() + 1 {
            0nat
        } else {
            1nat
        }),
{
    let s = bs_text(b, v);
    let head = seq!['B'] + b;
    if i <= b.len() + 1 {
        assert(s.take(i) =~= head.take(i));
        assert forall|j: int| 0 <= j < head.take(i).len() implies #[trigger] head.take(i)[j] != '/' by {
            if j > 0 {
                assert(head[j] == b[j - 1]);
            }
        }
        lemma_no_slash(head.take(i));
    } else {
        let first = head + seq!['/'];
        let rest = (seq!['S'] + v).take(i - b.len() - 2);
        assert(s.take(i) =~= first + rest);
        lemma_slash_concat(first, rest);
        lemma_slash_concat(head, seq!['/']);
        assert forall|j: int| 0 <= j < head.len() implies #[trigger] head[j] != '/' by {
            if j > 0 {
                assert(head[j] == b[j - 1]);
            }
        }
        lemma_no_slash(head);
        assert(seq!['/'].drop_last() =~= Seq::<char>::empty());
        assert(slash_count(Seq::<char>::empty()) == 0);
        assert(seq!['/'].last() == '/');
        assert(slash_count(seq!['/']) == 1);
        assert forall|j: int| 0 <= j < rest.len() implies #[trigger] rest[j] != '/' by {
            if j > 0 {
                assert(rest[j] == v[j - 1]);
            }
        }
        lemma_no_slash(rest);
    }
}

proof fn lemma_bs_portions(b: Seq<char>, v: Seq<char>, n: nat)
    requires
        rising_counts(b),
        rising_counts(v),
    ensures
        portion_has(bs_text(b, v), 0, n) <==> exists|j: int| 0 <= j < b.len() && digit_value(#[trigger] b[j]) == n,
        portion_has(bs_text(b, v), 1, n) <==> exists|j: int| 0 <= j < v.len() && digit_value(#[trigger] v[j]) == n,
{
    let s = bs_text(b, v);
    if portion_has(s, 0, n) {
        let i = choose|i: int| 0 <= i < s.len() && is_digit(s[i]) && digit_value(#[trigger] s[i]) == n && slash_count(s.take(i)) == 0;
        lemma_bs_slashes(b, v, i);
        assert(1 <= i <= b.len());
        assert(s[i] == b[i - 1]);
    }
    if exists|j: int| 0 <= j < b.len() && digit_value(#[trigger] b[j]) == n {
        let j = choose|j: int| 0 <= j < b.len() && digit_value(#[trigger] b[j]) == n;
        lemma_bs_slashes(b, v, j + 1);
        assert(s[j + 1] == b[j]);
        assert('1' <= b[j] <= '8');
    }
    if portion_has(s, 1, n) {
        let i = choose|i: int| 0 <= i < s.len() && is_digit(s[i]) && digit_value(#[trigger] s[i]) == n && slash_count(s.take(i)) == 1;
        lemma_bs_slashes(b, v, i);
        assert(i >= b.len() + 3);
        assert(s[i] == v[i - b.len() - 3]);
    }
    if exists|j: int| 0 <= j < v.len() && digit_value(#[trigger] v[j]) == n {
        let j = choose|j: int| 0 <= j < v.len() && digit_value(#[trigger] v[j]) == n;
        lemma_bs_slashes(b, v, j + b.len() + 3);
        assert(s[j + b.len() + 3] == v[j]);
        assert('1' <= v[j] <= '8');
    }
}

proof fn lemma_no_four(s: Seq<char>)
    requires
        slash_count(s) < 2,
    ensures
        !has_four_states(s),
    decreases s.len(),
{
    if s.len() > 0 {
        lemma_no_four(s.drop_last());
    }
}

/// The digits written for a mask that holds exactly the counts `d` are `d`.
proof fn lemma_mask_digits(m: u32, d: Seq<char>)
    requires
        rising_counts(d),
        d.len() > 0,
        forall|i: nat| 1 <= i <= 8 ==> (count_bit(m, i) <==> exists|j: int| 0 <= j < d.len() && digit_value(#[trigger] d[j]) == i),
    ensures
        decimal(births_number(m, 8) as nat) == d,
        decimal(survives_number(m, 8) as nat) == d,
{
    let c = lemma_counts_number(m, d, 8);
    if c < d.len() {
        assert('1' <= d[c] <= '8');
    }
    assert(d.take(c) =~= d);
    lemma_decimal_of_counts(d);
}

/// Setting refractory fields leaves the survival bits as they were.
proof fn lemma_refractory_bits(m: u32, i: nat, j: nat)
    requires
        i <= 16,
        j < 16,
    ensures
        count_bit(refractory_fill(m, i), j) == count_bit(m, j),
    decreases i,
{
    if i > 0 {
        let k = (i - 1) as nat;
        lemma_refractory_bits(m, k, j);
        let r = refractory_fill(m, k);
        let k32 = k as u32;
        let j32 = j as u32;
        assert(((r | (2u32 << (2 * k32))) & (1u32 << (2 * j32)) != 0) == (r & (1u32 << (2 * j32)) != 0)) by (bit_vector)
            requires
                k32 < 16,
                j32 < 16,
        ;
        assert((2 * k) as u32 == 2 * k32);
        assert((2 * j) as u32 == 2 * j32);
    }
}

/// Rule text `B<b>/S<v>`, followed by `/4` for a Generations rule.
pub open spec fn bs_rule_text(b: Seq<char>, v: Seq<char>, generations: bool) -> Seq<char> {
    if generations {
        bs_text(b, v) + seq!['/', '4']
    } else {
        bs_text(b, v)
    }
}

proof fn lemma_generations_text(b: Seq<char>, v: Seq<char>)
    requires
        rising_counts(b),
        rising_counts(v),
    ensures
        portion_mask(bs_rule_text(b, v, true), 0) == portion_mask(bs_text(b, v), 0),
        portion_mask(bs_rule_text(b, v, true), 1) == portion_mask(bs_text(b, v), 1),
        has_four_states(bs_rule_text(b, v, true)),
        !has_four_states(bs_text(b, v)),
{
    let p = bs_text(b, v);
    let q = p + seq!['/'];
    let t = bs_rule_text(b, v, true);
    lemma_bs_slashes(b, v, p.len() as int);
    assert(p.take(p.len() as int) =~= p);
    lemma_no_four(p);
    assert(t.drop_last() =~= q);
    assert(q.drop_last() =~= p);
    assert(slash_count(q) == 2);
    assert(q.last() == '/');
    assert(t.last() == '4');
    assert forall|k: nat| k < 2 implies portion_mask(t, k) == portion_mask(p, k) by {
        let m = portion_mask(p, k);
        assert(m | 0u32 == m) by (bit_vector);
        assert(portion_mask(q, k) == m | 0u32);
        assert(portion_mask(t, k) == portion_mask(q, k) | 0u32);
    }
    assert(portion_mask(t, 0) == portion_mask(p, 0));
    assert(portion_mask(t, 1) == portion_mask(p, 1));
}

/// Rule text of the form `B<b>/S<v>`, or `B<b>/S<v>/4` for a Generations rule, where `b`
/// and `v` are non-empty runs of rising neighbour counts from 1 to 8, is written back
/// unchanged: read with `from_str` and written with `to_str`, `B36/S23` gives `B36/S23`.
pub proof fn law_rule_text_round_trip(b: Seq<char>, v: Seq<char>, generations: bool, r: LifeRule)
    requires
        rising_counts(b),
        rising_counts(v),
        b.len() > 0,
        v.len() > 0,
        r.spec_lut() == rule_lut(bs_rule_text(b, v, generations)),
    ensures
        r.spec_to_str() == bs_rule_text(b, v, generations),
{
    let s = bs_text(b, v);
    let t = bs_rule_text(b, v, generations);
    lemma_generations_text(b, v);
    let mb = portion_mask(s, 0);
    let mv = portion_mask(s, 1);
    assert(t[0] == 'B');
    assert forall|i: nat| 1 <= i <= 8 implies (count_bit(mb, i) <==> exists|j: int| 0 <= j < b.len() && digit_value(#[trigger] b[j]) == i) by {
        lemma_portion_mask(s, 0, i as u8);
        lemma_count_bit(mb, i as u8);
        lemma_bs_portions(b, v, i);
    }
    assert forall|i: nat| 1 <= i <= 8 implies (count_bit(mv, i) <==> exists|j: int| 0 <= j < v.len() && digit_value(#[trigger] v[j]) == i) by {
        lemma_portion_mask(s, 1, i as u8);
        lemma_count_bit(mv, i as u8);
        lemma_bs_portions(b, v, i);
    }
    lemma_mask_digits(mb, b);
    lemma_mask_digits(mv, v);
    if generations {
        let mr = refractory_fill(mv, 9);
        assert forall|i: nat| 1 <= i <= 8 implies (count_bit(mr, i) <==> exists|j: int| 0 <= j < v.len() && digit_value(#[trigger] v[j]) == i) by {
            lemma_refractory_bits(mv, 9, i);
        }
        lemma_mask_digits(mr, v);
        assert(r.spec_lut()[2] == refractory_all());
    }
    assert(r.spec_to_str() =~= t);
}

} // verus!
