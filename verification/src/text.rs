use vstd::prelude::*;

verus! {

/// `'0'..='9'`.
pub open spec fn is_digit(c: char) -> bool {
    '0' <= c <= '9'
}

/// The value of a decimal digit character.
pub open spec fn digit_value(c: char) -> nat {
    (c as u32 - '0' as u32) as nat
}

/// The character of a decimal digit.
pub open spec fn digit_char(d: nat) -> char {
    ((d + '0' as u32) as u32) as char
}

/// The decimal representation of `n`, without leading zeros ("0" for zero).
pub open spec fn decimal(n: nat) -> Seq<char>
    decreases n,
{
    if n < 10 {
        seq![digit_char(n)]
    } else {
        decimal(n / 10).push(digit_char(n % 10))
    }
}

/// The characters of a number written in decimal are digits worth the number.
pub proof fn lemma_decimal_digits(n: nat)
    ensures
        forall|i: int| 0 <= i < decimal(n).len() ==> is_digit(#[trigger] decimal(n)[i]),
        dec_value(decimal(n)) == n,
        decimal(n).len() > 0,
    decreases n,
{
    let k = n % 10;
    assert(digit_value(digit_char(k)) == k);
    assert(is_digit(digit_char(k)));
    if n < 10 {
        let d = decimal(n);
        assert(d.drop_last() =~= Seq::<char>::empty());
        assert(d.last() == digit_char(n));
        assert(dec_value(d.drop_last()) == 0);
        assert(dec_value(d) == digit_value(digit_char(n)));
    } else {
        lemma_decimal_digits(n / 10);
        let d = decimal(n);
        assert(d.drop_last() =~= decimal(n / 10));
        assert(d.last() == digit_char(k));
        assert(n == (n / 10) * 10 + k);
        assert(dec_value(d) == dec_value(decimal(n / 10)) * 10 + digit_value(digit_char(k)));
        assert forall|i: int| 0 <= i < d.len() implies is_digit(#[trigger] d[i]) by {
            if i < d.len() - 1 {
                assert(d[i] == decimal(n / 10)[i]);
            }
        }
    }
}

/// `String::push`: the contract claims what std documents, that the string afterwards is
/// the old one with `c` appended.
#[verifier::external_body]
pub(crate) fn push_char(s: &mut String, c: char)
    ensures
        final(s)@ == old(s)@.push(c),
{
    s.push(c);
}

/// An empty string.
pub fn new_string() -> (s: String)
    ensures
        s@ == Seq::<char>::empty(),
{
    String::new()
}

/// Appends all characters of `t`.
pub fn push_chars(s: &mut String, t: &Vec<char>)
    ensures
        final(s)@ == old(s)@ + t@,
{
    let mut i: usize = 0;
    while i < t.len()
        invariant
            i <= t.len(),
            s@ == old(s)@ + t@.take(i as int),
        decreases t.len() - i,
    {
        push_char(s, t[i]);
        assert(t@.take(i + 1) =~= t@.take(i as int).push(t@[i as int]));
        i = i + 1;
    }
    assert(t@.take(t.len() as int) =~= t@);
}

/// Appends all characters of `t`.
pub fn push_str(s: &mut String, t: &str)
    ensures
        final(s)@ == old(s)@ + t@,
{
    let cs = chars_of(t);
    push_chars(s, &cs);
}

/// The characters of `s`.
pub fn chars_of(s: &str) -> (v: Vec<char>)
    ensures
        v@ == s@,
{
    let n = s.unicode_len();
    let mut v: Vec<char> = Vec::new();
    let mut i: usize = 0;
    while i < n
        invariant
            n == s@.len(),
            i <= n,
            v@ == s@.take(i as int),
        decreases n - i,
    {
        let c = s.get_char(i);
        v.push(c);
        assert(s@.take(i + 1) =~= s@.take(i as int).push(c));
        i = i + 1;
    }
    assert(s@.take(n as int) =~= s@);
    v
}

/// A string holding exactly the characters `v`.
pub fn string_of(v: &Vec<char>) -> (s: String)
    ensures
        s@ == v@,
{
    let mut s = new_string();
    push_chars(&mut s, v);
    assert(Seq::<char>::empty() + v@ =~= v@);
    s
}

/// `10` to the power `k`.
pub open spec fn ten_pow(k: nat) -> nat
    decreases k,
{
    if k == 0 {
        1
    } else {
        10 * ten_pow((k - 1) as nat)
    }
}

/// A number below `10^k` has at most `k` decimal digits (and always at least one).
pub proof fn lemma_decimal_bound(n: nat, k: nat)
    requires
        1 <= k,
        n < ten_pow(k),
    ensures
        1 <= decimal(n).len() <= k,
    decreases n,
{
    if n >= 10 {
        if k == 1 {
            assert(ten_pow(1) == 10) by {
                reveal_with_fuel(ten_pow, 2);
            }
        }
        let p = ten_pow((k - 1) as nat);
        assert(n / 10 < p) by (nonlinear_arith)
            requires
                n < 10 * p,
        ;
        lemma_decimal_bound(n / 10, (k - 1) as nat);
    }
}

/// A count below ten billion has at most ten digits.
pub proof fn lemma_decimal_len(n: nat)
    requires
        n < 10000000000,
    ensures
        1 <= decimal(n).len() <= 10,
{
    assert(ten_pow(10) == 10000000000) by {
        reveal_with_fuel(ten_pow, 11);
    }
    lemma_decimal_bound(n, 10);
}

/// The decimal digits of `n`.
pub fn decimal_chars(n: u64) -> (v: Vec<char>)
    ensures
        v@ == decimal(n as nat),
    decreases n,
{
    if n < 10 {
        let c = char_of_digit(n as u32);
        let mut v = Vec::new();
        v.push(c);
        assert(v@ =~= seq![digit_char(n as nat)]);
        v
    } else {
        let mut v = decimal_chars(n / 10);
        v.push(char_of_digit((n % 10) as u32));
        v
    }
}

/// The character of the digit `d` in base 36 (`0-9`, then `a-z`).
pub open spec fn base36_char(d: nat) -> char {
    if d < 10 {
        digit_char(d)
    } else {
        ((d - 10 + 'a' as u32) as u32) as char
    }
}

/// The character of a decimal digit.
pub fn char_of_digit(d: u32) -> (c: char)
    requires
        d < 10,
    ensures
        c == digit_char(d as nat),
{
    let v: u32 = d + 48;
    
    char_from_u32(v)
}

/// The character of a base-36 digit (`0-9`, then `a-z`).
pub fn char_of_base36(d: u32) -> (c: char)
    requires
        d < 36,
    ensures
        c == base36_char(d as nat),
{
    if d < 10 {
        char_of_digit(d)
    } else {
        char_from_u32(d - 10 + 97)
    }
}

/// The ASCII character whose code is `v`.
fn char_from_u32(v: u32) -> (c: char)
    requires
        v < 128,
    ensures
        c == v as char,
{
    let b: u8 = v as u8;
    b as char
}


/// The pieces of `s` between occurrences of `sep` (an empty `s` is one empty piece).
pub open spec fn split_on(s: Seq<char>, sep: char) -> Seq<Seq<char>>
    decreases s.len(),
{
    if s.len() == 0 {
        seq![Seq::<char>::empty()]
    } else {
        let rest = split_on(s.drop_last(), sep);
        if s.last() == sep {
            rest.push(Seq::<char>::empty())
        } else {
            rest.update(rest.len() - 1, rest.last().push(s.last()))
        }
    }
}

pub proof fn lemma_split_on_len(s: Seq<char>, sep: char)
    ensures
        split_on(s, sep).len() >= 1,
    decreases s.len(),
{
    if s.len() > 0 {
        lemma_split_on_len(s.drop_last(), sep);
    }
}

/// Appending characters other than `sep` extends the last piece.
pub proof fn lemma_split_on_extend(s: Seq<char>, b: Seq<char>, sep: char)
    requires
        forall|i: int| 0 <= i < b.len() ==> b[i] != sep,
    ensures
        split_on(s + b, sep) == split_on(s, sep).update(
            split_on(s, sep).len() - 1,
            split_on(s, sep).last() + b,
        ),
    decreases b.len(),
{
    lemma_split_on_len(s, sep);
    if b.len() == 0 {
        assert(s + b =~= s);
        assert(split_on(s, sep).last() + b =~= split_on(s, sep).last());
        assert(split_on(s, sep).update(split_on(s, sep).len() - 1, split_on(s, sep).last()) =~= split_on(s, sep));
    } else {
        let b0 = b.drop_last();
        lemma_split_on_extend(s, b0, sep);
        assert((s + b).drop_last() =~= s + b0);
        assert((s + b).last() == b.last());
        lemma_split_on_len(s + b0, sep);
        assert(split_on(s, sep).last() + b0 + seq![b.last()] =~= split_on(s, sep).last() + b);
        assert((split_on(s, sep).last() + b0).push(b.last()) =~= split_on(s, sep).last() + b);
        assert(split_on(s + b, sep) =~= split_on(s, sep).update(split_on(s, sep).len() - 1, split_on(s, sep).last() + b));
    }
}

/// Pieces without `sep` joined by `sep` split back into the pieces.
pub proof fn lemma_split_on_join(s: Seq<char>, b: Seq<char>, sep: char)
    requires
        forall|i: int| 0 <= i < b.len() ==> b[i] != sep,
    ensures
        split_on(s.push(sep) + b, sep) == split_on(s, sep).push(b),
{
    lemma_split_on_extend(s.push(sep), b, sep);
    assert(s.push(sep).drop_last() =~= s);
    assert(s.push(sep).last() == sep);
    assert(split_on(s.push(sep), sep) == split_on(s, sep).push(Seq::<char>::empty()));
    assert(Seq::<char>::empty() + b =~= b);
    assert(split_on(s, sep).push(Seq::<char>::empty()).update(split_on(s, sep).len() as int, b) =~= split_on(s, sep).push(b));
}

/// A text without `sep` is one piece.
pub proof fn lemma_split_on_single(b: Seq<char>, sep: char)
    requires
        forall|i: int| 0 <= i < b.len() ==> b[i] != sep,
    ensures
        split_on(b, sep) == seq![b],
{
    lemma_split_on_extend(Seq::<char>::empty(), b, sep);
    assert(Seq::<char>::empty() + b =~= b);
    assert(split_on(Seq::<char>::empty(), sep) == seq![Seq::<char>::empty()]);
    assert(seq![Seq::<char>::empty()].update(0, Seq::<char>::empty() + b) =~= seq![b]);
}

/// `l` without one trailing carriage return.
pub open spec fn strip_cr(l: Seq<char>) -> Seq<char> {
    if l.len() > 0 && l.last() == '\r' {
        l.drop_last()
    } else {
        l
    }
}

/// The lines of `s` as `str::lines` gives them: pieces between line feeds, a carriage
/// return before a line feed dropped, and no final empty piece.
pub open spec fn text_lines(s: Seq<char>) -> Seq<Seq<char>> {
    let p = split_on(s, '\n');
    let n = if p.last().len() == 0 {
        p.len() - 1
    } else {
        p.len() as int
    };
    Seq::new(
        n as nat,
        |i: int|
            if i < p.len() - 1 {
                strip_cr(p[i])
            } else {
                p[i]
            },
    )
}

/// The pieces of `s` between occurrences of `sep`.
pub fn split_chars(s: &Vec<char>, sep: char) -> (v: Vec<Vec<char>>)
    ensures
        v@.len() == split_on(s@, sep).len(),
        forall|i: int| 0 <= i < v@.len() ==> (#[trigger] v@[i])@ == split_on(s@, sep)[i],
{
    let mut v: Vec<Vec<char>> = Vec::new();
    let mut cur: Vec<char> = Vec::new();
    let mut i: usize = 0;
    proof {
        assert(s@.take(0) =~= Seq::<char>::empty());
    }
    while i < s.len()
        invariant
            i <= s.len(),
            v@.len() + 1 == split_on(s@.take(i as int), sep).len(),
            forall|k: int| 0 <= k < v@.len() ==> (#[trigger] v@[k])@ == split_on(s@.take(i as int), sep)[k],
            cur@ == split_on(s@.take(i as int), sep).last(),
        decreases s.len() - i,
    {
        let c = s[i];
        proof {
            assert(s@.take(i + 1).drop_last() =~= s@.take(i as int));
            lemma_split_on_len(s@.take(i as int), sep);
        }
        if c == sep {
            let done = cur;
            v.push(done);
            cur = Vec::new();
        } else {
            cur.push(c);
        }
        i = i + 1;
    }
    assert(s@.take(s.len() as int) =~= s@);
    proof {
        lemma_split_on_len(s@, sep);
    }
    v.push(cur);
    v
}

/// `l` without one trailing carriage return.
fn strip_cr_exec(l: Vec<char>) -> (r: Vec<char>)
    ensures
        r@ == strip_cr(l@),
{
    let mut l = l;
    let n = l.len();
    if n > 0 && l[n - 1] == '\r' {
        l.pop();
    }
    l
}

/// The lines of `s`, as `str::lines` gives them.
pub fn lines_of(s: &str) -> (v: Vec<Vec<char>>)
    ensures
        v@.len() == text_lines(s@).len(),
        forall|i: int| 0 <= i < v@.len() ==> (#[trigger] v@[i])@ == text_lines(s@)[i],
{
    let cs = chars_of(s);
    let pieces = split_chars(&cs, '\n');
    let ghost p = split_on(s@, '\n');
    proof {
        lemma_split_on_len(s@, '\n');
    }
    let np = pieces.len();
    let n = if pieces[np - 1].len() == 0 {
        np - 1
    } else {
        np
    };
    let mut v: Vec<Vec<char>> = Vec::new();
    let mut i: usize = 0;
    while i < n
        invariant
            np == p.len(),
            np >= 1,
            n <= np,
            n == text_lines(s@).len(),
            pieces@.len() == p.len(),
            forall|k: int| 0 <= k < pieces@.len() ==> (#[trigger] pieces@[k])@ == p[k],
            p == split_on(s@, '\n'),
            i <= n,
            v@.len() == i,
            forall|k: int| 0 <= k < i ==> (#[trigger] v@[k])@ == text_lines(s@)[k],
        decreases n - i,
    {
        let piece = pieces[i].clone();
        let line = if i < np - 1 {
            strip_cr_exec(piece)
        } else {
            piece
        };
        v.push(line);
        i = i + 1;
    }
    v
}

/// `l` begins with `prefix`.
pub open spec fn starts_with(l: Seq<char>, prefix: Seq<char>) -> bool {
    prefix.len() <= l.len() && l.take(prefix.len() as int) == prefix
}

/// Whether `l` begins with `prefix`.
pub fn has_prefix(l: &Vec<char>, prefix: &Vec<char>) -> (r: bool)
    ensures
        r == starts_with(l@, prefix@),
{
    if prefix.len() > l.len() {
        return false;
    }
    let mut i: usize = 0;
    while i < prefix.len()
        invariant
            prefix@.len() <= l@.len(),
            i <= prefix.len(),
            forall|k: int| 0 <= k < i ==> l@[k] == prefix@[k],
        decreases prefix.len() - i,
    {
        if l[i] != prefix[i] {
            assert(l@.take(prefix.len() as int)[i as int] != prefix@[i as int]);
            return false;
        }
        i = i + 1;
    }
    assert(l@.take(prefix.len() as int) =~= prefix@);
    true
}

/// The characters of `l` from index `start` on.
pub fn tail_from(l: &Vec<char>, start: usize) -> (r: Vec<char>)
    requires
        start <= l.len(),
    ensures
        r@ == l@.skip(start as int),
{
    let mut r: Vec<char> = Vec::new();
    let mut i: usize = start;
    while i < l.len()
        invariant
            start <= i <= l.len(),
            r@ == l@.subrange(start as int, i as int),
        decreases l.len() - i,
    {
        r.push(l[i]);
        assert(l@.subrange(start as int, i + 1) =~= l@.subrange(start as int, i as int).push(l@[i as int]));
        i = i + 1;
    }
    assert(l@.subrange(start as int, l.len() as int) =~= l@.skip(start as int));
    r
}


/// `sep` occurs in `s` at `i`.
pub open spec fn occurs_at(s: Seq<char>, sep: Seq<char>, i: int) -> bool {
    0 <= i && i + sep.len() <= s.len() && s.subrange(i, i + sep.len()) == sep
}

/// The pieces of `s` between non-overlapping occurrences of `sep`, searched left to right,
/// for the piece that started at `start`, scanning from `i` (`str::split` with a string).
pub open spec fn split_scan(s: Seq<char>, sep: Seq<char>, start: int, i: int) -> Seq<Seq<char>>
    decreases s.len() + 1 - i,
    when sep.len() > 0 && 0 <= start <= i
{
    if i + sep.len() > s.len() {
        seq![s.subrange(start, s.len() as int)]
    } else if occurs_at(s, sep, i) {
        seq![s.subrange(start, i)] + split_scan(s, sep, i + sep.len(), i + sep.len())
    } else {
        split_scan(s, sep, start, i + 1)
    }
}

/// The pieces of `s` between non-overlapping occurrences of `sep`.
pub open spec fn split_str(s: Seq<char>, sep: Seq<char>) -> Seq<Seq<char>> {
    split_scan(s, sep, 0, 0)
}

/// The first occurrence of `sep` in `s` at or after `i`.
pub open spec fn find_from(s: Seq<char>, sep: Seq<char>, i: int) -> Option<int>
    decreases s.len() + 1 - i,
    when 0 <= i
{
    if i + sep.len() > s.len() {
        None
    } else if occurs_at(s, sep, i) {
        Some(i)
    } else {
        find_from(s, sep, i + 1)
    }
}

/// `s` split around the first occurrence of `sep` (`str::split_once`).
pub open spec fn split_once(s: Seq<char>, sep: Seq<char>) -> Option<(Seq<char>, Seq<char>)> {
    match find_from(s, sep, 0) {
        Some(i) => Some((s.subrange(0, i), s.subrange(i + sep.len(), s.len() as int))),
        None => None,
    }
}

/// Whether `sep` occurs in `s` at `i`.
pub fn occurs_at_exec(s: &Vec<char>, sep: &Vec<char>, i: usize) -> (r: bool)
    ensures
        r == occurs_at(s@, sep@, i as int),
{
    if i > s.len() || sep.len() > s.len() - i {
        return false;
    }
    let mut k: usize = 0;
    while k < sep.len()
        invariant
            i + sep@.len() <= s@.len(),
            k <= sep.len(),
            forall|j: int| 0 <= j < k ==> s@[i + j] == sep@[j],
        decreases sep.len() - k,
    {
        assert(i + k < s.len());
        if s[i + k] != sep[k] {
            assert(s@.subrange(i as int, i + sep@.len())[k as int] != sep@[k as int]);
            return false;
        }
        k = k + 1;
    }
    assert(s@.subrange(i as int, i + sep@.len()) =~= sep@);
    true
}

/// The characters of `s` from `a` up to `b`.
pub fn slice_chars(s: &Vec<char>, a: usize, b: usize) -> (r: Vec<char>)
    requires
        a <= b <= s.len(),
    ensures
        r@ == s@.subrange(a as int, b as int),
{
    let mut r: Vec<char> = Vec::new();
    let mut i: usize = a;
    while i < b
        invariant
            a <= i <= b <= s.len(),
            r@ == s@.subrange(a as int, i as int),
        decreases b - i,
    {
        r.push(s[i]);
        assert(s@.subrange(a as int, i + 1) =~= s@.subrange(a as int, i as int).push(s@[i as int]));
        i = i + 1;
    }
    r
}

/// The pieces of `s` between non-overlapping occurrences of `sep`.
pub fn split_by(s: &Vec<char>, sep: &Vec<char>) -> (v: Vec<Vec<char>>)
    requires
        sep.len() > 0,
    ensures
        v@.len() == split_str(s@, sep@).len(),
        forall|k: int| 0 <= k < v@.len() ==> (#[trigger] v@[k])@ == split_str(s@, sep@)[k],
{
    let mut v: Vec<Vec<char>> = Vec::new();
    let ghost mut done: Seq<Seq<char>> = Seq::empty();
    let mut start: usize = 0;
    let mut i: usize = 0;
    assert(done + split_scan(s@, sep@, 0, 0) =~= split_str(s@, sep@));
    while i <= s.len() && sep.len() <= s.len() - i
        invariant
            sep@.len() > 0,
            start <= i,
            i <= s.len(),
            v@.len() == done.len(),
            forall|k: int| 0 <= k < v@.len() ==> (#[trigger] v@[k])@ == done[k],
            done + split_scan(s@, sep@, start as int, i as int) == split_str(s@, sep@),
        decreases s.len() - i,
    {
        if occurs_at_exec(s, sep, i) {
            let piece = slice_chars(s, start, i);
            proof {
                let rest2 = split_scan(s@, sep@, i + sep@.len(), i + sep@.len());
                assert(split_scan(s@, sep@, start as int, i as int) == seq![piece@] + rest2);
                assert(done.push(piece@) + rest2 =~= done + (seq![piece@] + rest2));
                done = done.push(piece@);
            }
            v.push(piece);
            i = i + sep.len();
            start = i;
        } else {
            i = i + 1;
        }
    }
    let piece = slice_chars(s, start, s.len());
    proof {
        assert(split_scan(s@, sep@, start as int, i as int) == seq![piece@]);
        assert(done.push(piece@) =~= done + seq![piece@]);
        done = done.push(piece@);
    }
    v.push(piece);
    v
}

/// `s` split around the first occurrence of `sep`.
pub fn split_once_by(s: &Vec<char>, sep: &Vec<char>) -> (r: Option<(Vec<char>, Vec<char>)>)
    ensures
        match r {
            Some(p) => split_once(s@, sep@) == Some((p.0@, p.1@)),
            None => split_once(s@, sep@) is None,
        },
{
    let mut i: usize = 0;
    while i <= s.len() && sep.len() <= s.len() - i
        invariant
            i <= s.len(),
            find_from(s@, sep@, 0) == find_from(s@, sep@, i as int),
        decreases s.len() + 1 - i,
    {
        if occurs_at_exec(s, sep, i) {
            let a = slice_chars(s, 0, i);
            let b = slice_chars(s, i + sep.len(), s.len());
            return Some((a, b));
        }
        assert(sep@.len() > 0) by {
            if sep@.len() == 0 {
                assert(s@.subrange(i as int, i as int) =~= sep@);
            }
        }
        i = i + 1;
    }
    None
}


/// The value of a string of decimal digits.
pub open spec fn dec_value(d: Seq<char>) -> nat
    decreases d.len(),
{
    if d.len() == 0 {
        0
    } else {
        dec_value(d.drop_last()) * 10 + digit_value(d.last())
    }
}

/// Every character is a decimal digit.
pub open spec fn all_digits(d: Seq<char>) -> bool {
    forall|i: int| 0 <= i < d.len() ==> is_digit(#[trigger] d[i])
}

/// The `i16` that `s` spells (`i16::from_str`): an optional sign, then one or more digits,
/// within range.
pub open spec fn parse_i16(s: Seq<char>) -> Option<i16> {
    let neg = s.len() > 0 && s[0] == '-';
    let signed = s.len() > 0 && (s[0] == '-' || s[0] == '+');
    let d = if signed {
        s.skip(1)
    } else {
        s
    };
    let v: int = if neg {
        -(dec_value(d) as int)
    } else {
        dec_value(d) as int
    };
    if d.len() > 0 && all_digits(d) && i16::MIN <= v <= i16::MAX {
        Some(v as i16)
    } else {
        None
    }
}

proof fn lemma_dec_value_grows(d: Seq<char>)
    requires
        d.len() > 0,
        all_digits(d),
    ensures
        dec_value(d) >= dec_value(d.drop_last()),
{
}

/// The `i16` that `s` spells, if any.
pub fn parse_i16_exec(s: &Vec<char>) -> (r: Option<i16>)
    ensures
        r == parse_i16(s@),
{
    let n = s.len();
    let neg = n > 0 && s[0] == '-';
    let signed = n > 0 && (s[0] == '-' || s[0] == '+');
    let start: usize = if signed {
        1
    } else {
        0
    };
    let ghost d = if signed {
        s@.skip(1)
    } else {
        s@
    };
    if start >= n {
        proof {
            assert(d.len() == 0);
        }
        return None;
    }
    let mut v: u32 = 0;
    let mut big = false;
    let mut i: usize = start;
    proof {
        assert(d.take(0) =~= Seq::<char>::empty());
    }
    while i < n
        invariant
            start <= i <= n,
            n == s@.len(),
            d == s@.skip(start as int),
            signed == (s@.len() > 0 && (s@[0] == '-' || s@[0] == '+')),
            neg == (s@.len() > 0 && s@[0] == '-'),
            start == (if signed {
                1usize
            } else {
                0usize
            }),
            d.len() == n - start,
            all_digits(d.take(i - start)),
            !big ==> v == dec_value(d.take(i - start)) && v <= 32768,
            big ==> dec_value(d.take(i - start)) > 32768,
        decreases n - i,
    {
        let c = s[i];
        proof {
            assert(d.take(i - start + 1).drop_last() =~= d.take(i - start));
            assert(d[i - start] == c);
        }
        if !('0' <= c && c <= '9') {
            proof {
                assert(!is_digit(d[i - start]));
                assert(!all_digits(d));
                assert(signed == (s@.len() > 0 && (s@[0] == '-' || s@[0] == '+')));
            }
            return None;
        }
        let dv: u32 = (c as u32) - 48;
        if !big {
            let nv: u32 = v * 10 + dv;
            if nv > 32768 {
                big = true;
            } else {
                v = nv;
            }
        }
        proof {
            assert(all_digits(d.take(i - start + 1)));
        }
        i = i + 1;
    }
    proof {
        assert(d.take(n - start) =~= d);
    }
    if big {
        return None;
    }
    if neg {
        let r: i32 = -(v as i32);
        Some(r as i16)
    } else {
        if v > 32767 {
            None
        } else {
            Some(v as i16)
        }
    }
}


/// The `u32` that `s` spells (`u32::from_str`): an optional `+`, then one or more digits,
/// within range.
pub open spec fn parse_u32(s: Seq<char>) -> Option<u32> {
    let d = if s.len() > 0 && s[0] == '+' {
        s.skip(1)
    } else {
        s
    };
    if d.len() > 0 && all_digits(d) && dec_value(d) <= u32::MAX {
        Some(dec_value(d) as u32)
    } else {
        None
    }
}

/// The `u32` that `s` spells, if any.
pub fn parse_u32_exec(s: &Vec<char>) -> (r: Option<u32>)
    ensures
        r == parse_u32(s@),
{
    let n = s.len();
    let plus = n > 0 && s[0] == '+';
    let start: usize = if plus {
        1
    } else {
        0
    };
    let ghost d = if plus {
        s@.skip(1)
    } else {
        s@
    };
    if start >= n {
        return None;
    }
    let mut v: u64 = 0;
    let mut big = false;
    let mut i: usize = start;
    proof {
        assert(d.take(0) =~= Seq::<char>::empty());
    }
    while i < n
        invariant
            start <= i <= n,
            n == s@.len(),
            plus == (s@.len() > 0 && s@[0] == '+'),
            start == (if plus {
                1usize
            } else {
                0usize
            }),
            d == s@.skip(start as int),
            d.len() == n - start,
            all_digits(d.take(i - start)),
            !big ==> v == dec_value(d.take(i - start)) && v <= u32::MAX,
            big ==> dec_value(d.take(i - start)) > u32::MAX,
        decreases n - i,
    {
        let c = s[i];
        proof {
            assert(d.take(i - start + 1).drop_last() =~= d.take(i - start));
            assert(d[i - start] == c);
        }
        if !('0' <= c && c <= '9') {
            proof {
                assert(!is_digit(d[i - start]));
                assert(!all_digits(d));
            }
            return None;
        }
        let dv: u64 = (c as u64) - 48;
        if !big {
            let nv: u64 = v * 10 + dv;
            if nv > 4294967295 {
                big = true;
            } else {
                v = nv;
            }
        }
        proof {
            assert(all_digits(d.take(i - start + 1)));
        }
        i = i + 1;
    }
    proof {
        assert(d.take(n - start) =~= d);
    }
    if big {
        None
    } else {
        Some(v as u32)
    }
}

} // verus!
