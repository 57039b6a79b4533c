//! Character and string helpers: Unicode white space and control classes,
//! trimming, splitting on commas, and decimal and hexadecimal numerals.
use vstd::prelude::*;
use vstd::string::*;

verus! {

/// The Unicode `White_Space` property, which `char::is_whitespace` and
/// `str::trim` go by.
pub open spec fn is_space(c: char) -> bool {
    let v = c as u32;
    ||| 0x9 <= v <= 0xd
    ||| v == 0x20
    ||| v == 0x85
    ||| v == 0xa0
    ||| v == 0x1680
    ||| 0x2000 <= v <= 0x200a
    ||| v == 0x2028
    ||| v == 0x2029
    ||| v == 0x202f
    ||| v == 0x205f
    ||| v == 0x3000
}

/// The Unicode general category `Cc`, which `char::is_control` goes by.
pub open spec fn is_control(c: char) -> bool {
    let v = c as u32;
    v <= 0x1f || (0x7f <= v <= 0x9f)
}

/// Whether `c` is white space (see `is_space`).
pub fn char_is_space(c: char) -> (r: bool)
    ensures
        r == is_space(c),
{
    let v = c as u32;
    (0x9 <= v && v <= 0xd) || v == 0x20 || v == 0x85 || v == 0xa0 || v == 0x1680 || (0x2000 <= v
        && v <= 0x200a) || v == 0x2028 || v == 0x2029 || v == 0x202f || v == 0x205f || v == 0x3000
}

/// Whether `c` is a control character (see `is_control`).
pub fn char_is_control(c: char) -> (r: bool)
    ensures
        r == is_control(c),
{
    let v = c as u32;
    v <= 0x1f || (0x7f <= v && v <= 0x9f)
}

/// The characters of `s` with leading white space removed.
pub open spec fn trim_start(s: Seq<char>) -> Seq<char>
    decreases s.len(),
{
    if s.len() > 0 && is_space(s[0]) {
        trim_start(s.drop_first())
    } else {
        s
    }
}

/// The characters of `s` with trailing white space removed.
pub open spec fn trim_end(s: Seq<char>) -> Seq<char>
    decreases s.len(),
{
    if s.len() > 0 && is_space(s.last()) {
        trim_end(s.drop_last())
    } else {
        s
    }
}

/// What `str::trim` returns: leading and trailing white space removed.
pub open spec fn trim(s: Seq<char>) -> Seq<char> {
    trim_end(trim_start(s))
}

/// Whether `c` occurs in `s`.
pub open spec fn has_char(s: Seq<char>, c: char) -> bool {
    exists|i: int| 0 <= i < s.len() && s[i] == c
}

/// Whether some character of `s` is a control character.
pub open spec fn has_control(s: Seq<char>) -> bool {
    exists|i: int| 0 <= i < s.len() && is_control(#[trigger] s[i])
}

/// Trimming the start drops exactly the leading white space.
proof fn lemma_trim_start_skip(s: Seq<char>, i: int)
    requires
        0 <= i <= s.len(),
        forall|k: int| 0 <= k < i ==> is_space(#[trigger] s[k]),
        i == s.len() || !is_space(s[i]),
    ensures
        trim_start(s) == s.skip(i),
    decreases i,
{
    if i == 0 {
        assert(s.skip(0) =~= s);
    } else {
        let t = s.drop_first();
        assert forall|k: int| 0 <= k < i - 1 implies is_space(#[trigger] t[k]) by {
            assert(t[k] == s[k + 1]);
        }
        lemma_trim_start_skip(t, i - 1);
        assert(t.skip(i - 1) =~= s.skip(i));
    }
}

/// Trimming the end drops exactly the trailing white space.
proof fn lemma_trim_end_take(s: Seq<char>, j: int)
    requires
        0 <= j <= s.len(),
        forall|k: int| j <= k < s.len() ==> is_space(#[trigger] s[k]),
        j == 0 || !is_space(s[j - 1]),
    ensures
        trim_end(s) == s.take(j),
    decreases s.len() - j,
{
    if j == s.len() {
        assert(s.take(j) =~= s);
    } else {
        let t = s.drop_last();
        lemma_trim_end_take(t, j);
        assert(t.take(j) =~= s.take(j));
    }
}

/// The bounds of what `str::trim` keeps of `s`.
pub fn trim_bounds(s: &Vec<char>) -> (r: (usize, usize))
    ensures
        r.0 <= r.1 <= s.len(),
        trim(s@) == s@.subrange(r.0 as int, r.1 as int),
{
    let n = s.len();
    let mut i: usize = 0;
    while i < n && char_is_space(s[i])
        invariant
            i <= n == s.len(),
            forall|k: int| 0 <= k < i ==> is_space(#[trigger] s@[k]),
        decreases n - i,
    {
        i = i + 1;
    }
    let mut j: usize = n;
    while j > i && char_is_space(s[j - 1])
        invariant
            i <= j <= n == s.len(),
            forall|k: int| j <= k < n ==> is_space(#[trigger] s@[k]),
        decreases j,
    {
        j = j - 1;
    }
    proof {
        lemma_trim_start_skip(s@, i as int);
        let t = s@.skip(i as int);
        assert forall|k: int| j - i <= k < t.len() implies is_space(#[trigger] t[k]) by {
            assert(t[k] == s@[k + i]);
        }
        if j > i {
            assert(t[j - i - 1] == s@[j - 1]);
        }
        lemma_trim_end_take(t, j - i);
        assert(t.take(j - i) =~= s@.subrange(i as int, j as int));
    }
    (i, j)
}

/// The characters of `s`, in order.
pub fn chars_of(s: &str) -> (r: Vec<char>)
    ensures
        r@ == s@,
{
    broadcast use vstd::string::axiom_spec_iter;

    let mut r: Vec<char> = Vec::new();
    for c in it: s.chars()
        invariant
            it.seq() == s@,
            r@ == it.seq().take(it.index() as int),
    {
        proof {
            assert(it.seq().take(it.index() + 1) =~= it.seq().take(it.index() as int).push(c));
        }
        r.push(c);
    }
    proof {
        assert(s@.take(s@.len() as int) =~= s@);
    }
    r
}

/// Appends one character to `s` (`String::push`).
#[verifier::external_body]
pub(crate) fn push_char(s: &mut String, c: char)
    ensures
        final(s)@ == old(s)@.push(c),
{
    s.push(c)
}

/// A string made of the characters `cs[lo..hi]`.
pub fn string_of(cs: &Vec<char>, lo: usize, hi: usize) -> (r: String)
    requires
        lo <= hi <= cs.len(),
    ensures
        r@ == cs@.subrange(lo as int, hi as int),
{
    let mut r = String::new();
    let mut k = lo;
    while k < hi
        invariant
            lo <= k <= hi <= cs.len(),
            r@ == cs@.subrange(lo as int, k as int),
        decreases hi - k,
    {
        push_char(&mut r, cs[k]);
        assert(cs@.subrange(lo as int, k + 1) =~= cs@.subrange(lo as int, k as int).push(cs@[k as int]));
        k = k + 1;
    }
    r
}

/// The digit character of value `d` (below 16) in a numeral: `0`-`9`, then `a`-`f`.
pub open spec fn digit_char(d: nat) -> char {
    if d < 10 {
        (48 + d) as char
    } else {
        (87 + d) as char
    }
}

/// The numeral of `n` in base `b`, without leading zeros (`0` for zero),
/// lower-case digits: what `Display`, `{:x}` and `{:b}` print for an integer.
pub open spec fn numeral(n: nat, b: nat) -> Seq<char>
    recommends
        2 <= b <= 16,
    decreases n,
{
    if n < b || b < 2 {
        seq![digit_char(n)]
    } else {
        proof {
            lemma_div_smaller(n, b);
        }
        numeral(n / b, b).push(digit_char(n % b))
    }
}

/// Dividing by at least 2 makes a positive number smaller.
pub proof fn lemma_div_smaller(n: nat, b: nat)
    requires
        2 <= b <= n,
    ensures
        n / b < n,
{
    assert(n / b < n) by (nonlinear_arith)
        requires
            2 <= b <= n,
    ;
}

/// The decimal numeral of `n`.
pub open spec fn decimal(n: nat) -> Seq<char> {
    numeral(n, 10)
}

/// `count` copies of `c`.
pub open spec fn repeat(c: char, count: nat) -> Seq<char> {
    Seq::new(count, |i: int| c)
}

/// `s` padded on the left with `c` to at least `width` characters.
pub open spec fn pad_left(s: Seq<char>, width: nat, c: char) -> Seq<char> {
    if s.len() < width {
        repeat(c, (width - s.len()) as nat) + s
    } else {
        s
    }
}

/// `s` padded on the right with `c` to at least `width` characters.
pub open spec fn pad_right(s: Seq<char>, width: nat, c: char) -> Seq<char> {
    if s.len() < width {
        s + repeat(c, (width - s.len()) as nat)
    } else {
        s
    }
}

/// The digit character of value `d` (see `digit_char`).
pub fn digit(d: u64) -> (c: char)
    requires
        d < 16,
    ensures
        c == digit_char(d as nat),
{
    if d < 10 {
        ((48 + d) as u8) as char
    } else {
        ((87 + d) as u8) as char
    }
}

/// Appends the numeral of `n` in base `b` to `s`.
pub fn push_numeral(s: &mut String, n: u64, b: u64)
    requires
        2 <= b <= 16,
    ensures
        final(s)@ == old(s)@ + numeral(n as nat, b as nat),
    decreases n,
{
    if n >= b {
        proof {
            lemma_div_smaller(n as nat, b as nat);
        }
        push_numeral(s, n / b, b);
        push_char(s, digit(n % b));
        assert(numeral(n as nat, b as nat) == numeral((n / b) as nat, b as nat).push(
            digit_char((n % b) as nat),
        ));
    } else {
        push_char(s, digit(n));
    }
}

/// Appends `count` copies of `c` to `s`.
pub fn push_repeat(s: &mut String, c: char, count: usize)
    ensures
        final(s)@ == old(s)@ + repeat(c, count as nat),
{
    let ghost start = s@;
    let mut k: usize = 0;
    while k < count
        invariant
            k <= count,
            s@ == start + repeat(c, k as nat),
        decreases count - k,
    {
        push_char(s, c);
        assert(repeat(c, (k + 1) as nat) =~= repeat(c, k as nat).push(c));
        assert(start + repeat(c, (k + 1) as nat) =~= (start + repeat(c, k as nat)).push(c));
        k = k + 1;
    }
}

/// The lexicographic order of character sequences by code point. On strings it
/// is the order of `String`'s `Ord`, which compares UTF-8 bytes, since UTF-8
/// keeps the order of code points.
pub open spec fn seq_lt(a: Seq<char>, b: Seq<char>) -> bool
    decreases a.len(),
{
    if a.len() == 0 {
        b.len() > 0
    } else if b.len() == 0 {
        false
    } else if a[0] != b[0] {
        (a[0] as int) < (b[0] as int)
    } else {
        seq_lt(a.drop_first(), b.drop_first())
    }
}

/// No sequence comes before itself.
pub proof fn lemma_seq_lt_irreflexive(a: Seq<char>)
    ensures
        !seq_lt(a, a),
    decreases a.len(),
{
    if a.len() > 0 {
        lemma_seq_lt_irreflexive(a.drop_first());
    }
}

/// The order is transitive.
pub proof fn lemma_seq_lt_transitive(a: Seq<char>, b: Seq<char>, c: Seq<char>)
    requires
        seq_lt(a, b),
        seq_lt(b, c),
    ensures
        seq_lt(a, c),
    decreases a.len(),
{
    if a.len() > 0 && b.len() > 0 && c.len() > 0 && a[0] == b[0] && b[0] == c[0] {
        lemma_seq_lt_transitive(a.drop_first(), b.drop_first(), c.drop_first());
    }
}

/// Of two distinct sequences exactly one comes first.
pub proof fn lemma_seq_lt_total(a: Seq<char>, b: Seq<char>)
    ensures
        a != b ==> (seq_lt(a, b) || seq_lt(b, a)),
        !(seq_lt(a, b) && seq_lt(b, a)),
    decreases a.len(),
{
    if a.len() > 0 && b.len() > 0 {
        if a[0] == b[0] {
            lemma_seq_lt_total(a.drop_first(), b.drop_first());
            if a.drop_first() == b.drop_first() {
                assert(a =~= seq![a[0]] + a.drop_first());
                assert(b =~= seq![b[0]] + b.drop_first());
            }
        } else {
            assert((a[0] as int) != (b[0] as int));
        }
    } else if a.len() == 0 && b.len() == 0 {
        assert(a =~= b);
    }
}

/// Whether `a` comes before `b` in the order of `String`'s `Ord`.
pub fn chars_lt(a: &Vec<char>, b: &Vec<char>) -> (r: bool)
    ensures
        r == seq_lt(a@, b@),
{
    let mut k: usize = 0;
    assert(a@.skip(0) =~= a@);
    assert(b@.skip(0) =~= b@);
    while k < a.len() && k < b.len() && a[k] == b[k]
        invariant
            k <= a.len(),
            k <= b.len(),
            a@.take(k as int) == b@.take(k as int),
            seq_lt(a@, b@) == seq_lt(a@.skip(k as int), b@.skip(k as int)),
        decreases a.len() - k,
    {
        proof {
            let sa = a@.skip(k as int);
            let sb = b@.skip(k as int);
            assert(sa.drop_first() =~= a@.skip(k + 1));
            assert(sb.drop_first() =~= b@.skip(k + 1));
            assert(a@.take(k + 1) =~= a@.take(k as int).push(a@[k as int]));
            assert(b@.take(k + 1) =~= b@.take(k as int).push(b@[k as int]));
        }
        k = k + 1;
    }
    proof {
        let sa = a@.skip(k as int);
        let sb = b@.skip(k as int);
        if k < a.len() && k < b.len() {
            assert(sa[0] == a@[k as int]);
            assert(sb[0] == b@[k as int]);
        }
    }
    if k == a.len() {
        k < b.len()
    } else if k == b.len() {
        false
    } else {
        a[k] < b[k]
    }
}

/// Whether `a` comes before `b` in the order of `String`'s `Ord`.
pub fn string_lt(a: &String, b: &String) -> (r: bool)
    ensures
        r == seq_lt(a@, b@),
{
    let ca = chars_of(a.as_str());
    let cb = chars_of(b.as_str());
    chars_lt(&ca, &cb)
}

/// Whether `str::trim` leaves `s` as it is.
pub fn is_trimmed(cs: &Vec<char>) -> (r: bool)
    ensures
        r == (trim(cs@) == cs@),
{
    let (a, b) = trim_bounds(cs);
    if a != 0 || b != cs.len() {
        proof {
            assert(trim(cs@).len() < cs@.len());
        }
        false
    } else {
        proof {
            assert(cs@.subrange(0, cs@.len() as int) =~= cs@);
        }
        true
    }
}

/// Whether `str::trim` leaves nothing of `s`.
pub fn is_blank(cs: &Vec<char>) -> (r: bool)
    ensures
        r == (trim(cs@).len() == 0),
{
    let (a, b) = trim_bounds(cs);
    a == b
}

/// Whether `c` occurs in `cs`.
pub fn contains_char(cs: &Vec<char>, c: char) -> (r: bool)
    ensures
        r == has_char(cs@, c),
{
    let mut i: usize = 0;
    while i < cs.len()
        invariant
            i <= cs.len(),
            forall|j: int| 0 <= j < i ==> cs@[j] != c,
        decreases cs.len() - i,
    {
        if cs[i] == c {
            return true;
        }
        i = i + 1;
    }
    false
}

/// Whether some character of `cs` is a control character.
pub fn contains_control(cs: &Vec<char>) -> (r: bool)
    ensures
        r == has_control(cs@),
{
    let mut i: usize = 0;
    while i < cs.len()
        invariant
            i <= cs.len(),
            forall|j: int| 0 <= j < i ==> !is_control(#[trigger] cs@[j]),
        decreases cs.len() - i,
    {
        if char_is_control(cs[i]) {
            return true;
        }
        i = i + 1;
    }
    false
}

/// Whether `c` is an ASCII decimal digit.
pub open spec fn is_digit(c: char) -> bool {
    48 <= (c as int) <= 57
}

/// Whether every character of `s` is an ASCII decimal digit.
pub open spec fn all_digits(s: Seq<char>) -> bool {
    forall|i: int| 0 <= i < s.len() ==> is_digit(#[trigger] s[i])
}

/// The value of the decimal digits `s`, leading zeros allowed.
pub open spec fn digits_value(s: Seq<char>) -> nat
    decreases s.len(),
{
    if s.len() == 0 {
        0
    } else {
        digits_value(s.drop_last()) * 10 + ((s.last() as int) - 48) as nat
    }
}

/// What `u8::from_str` accepts: an optional `+`, then one or more ASCII
/// digits whose value is at most 255 (leading zeros allowed).
pub open spec fn parse_u8(s: Seq<char>) -> Option<u8> {
    let d = if s.len() > 0 && s[0] == '+' {
        s.drop_first()
    } else {
        s
    };
    if d.len() > 0 && all_digits(d) && digits_value(d) <= 255 {
        Some(digits_value(d) as u8)
    } else {
        None
    }
}

/// A decimal numeral is made of digits and reads back as its value.
pub proof fn lemma_decimal_value(n: nat)
    ensures
        decimal(n).len() > 0,
        all_digits(decimal(n)),
        digits_value(decimal(n)) == n,
    decreases n,
{
    if n >= 10 {
        lemma_div_smaller(n, 10);
        lemma_decimal_value(n / 10);
        let d = decimal(n);
        assert(d == decimal(n / 10).push(digit_char(n % 10)));
        assert(d.drop_last() =~= decimal(n / 10));
        assert forall|i: int| 0 <= i < d.len() implies is_digit(#[trigger] d[i]) by {
            if i < d.len() - 1 {
                assert(d[i] == decimal(n / 10)[i]);
            }
        }
        assert(n == (n / 10) * 10 + n % 10) by (nonlinear_arith);
        assert((digit_char(n % 10) as int) == 48 + n % 10);
        assert(digits_value(d) == digits_value(decimal(n / 10)) * 10 + n % 10);
    } else {
        let d = decimal(n);
        assert(d.drop_last() =~= Seq::<char>::empty());
        assert(digits_value(d.drop_last()) == 0);
        assert((digit_char(n) as int) == 48 + n);
    }
}

/// Distinct numbers have distinct decimal numerals.
pub proof fn lemma_decimal_injective(a: nat, b: nat)
    requires
        decimal(a) == decimal(b),
    ensures
        a == b,
{
    lemma_decimal_value(a);
    lemma_decimal_value(b);
}

/// A prefix of a run of digits is worth no more than the whole run.
proof fn lemma_digits_value_prefix(d: Seq<char>, k: int)
    requires
        0 <= k <= d.len(),
        all_digits(d),
    ensures
        digits_value(d.take(k)) <= digits_value(d),
    decreases d.len() - k,
{
    if k < d.len() {
        lemma_digits_value_prefix(d, k + 1);
        assert(d.take(k + 1).drop_last() =~= d.take(k));
        assert(is_digit(d[k]));
    } else {
        assert(d.take(k) =~= d);
    }
}

/// Reads `cs` as `u8::from_str` does (see `parse_u8`).
pub fn parse_u8_chars(cs: &Vec<char>) -> (r: Option<u8>)
    ensures
        r == parse_u8(cs@),
{
    let start: usize = if cs.len() > 0 && cs[0] == '+' {
        1
    } else {
        0
    };
    let ghost d = if cs@.len() > 0 && cs@[0] == '+' {
        cs@.drop_first()
    } else {
        cs@
    };
    assert(d =~= cs@.skip(start as int));
    if start == cs.len() {
        return None;
    }
    let mut v: u32 = 0;
    let mut i: usize = start;
    while i < cs.len()
        invariant
            start <= i <= cs@.len(),
            d == cs@.skip(start as int),
            d == (if cs@.len() > 0 && cs@[0] == '+' {
                cs@.drop_first()
            } else {
                cs@
            }),
            all_digits(d.take(i - start)),
            v == digits_value(d.take(i - start)),
            v <= 255,
        decreases cs@.len() - i,
    {
        let c = cs[i];
        let ghost k = i - start;
        assert(d[k] == c);
        if !('0' <= c && c <= '9') {
            assert(!is_digit(d[k]));
            assert(!all_digits(d));
            return None;
        }
        proof {
            assert(d.take(k + 1).drop_last() =~= d.take(k));
            assert(d.take(k + 1).last() == c);
        }
        v = v * 10 + (c as u32 - 48);
        assert(v == digits_value(d.take(k + 1)));
        assert(all_digits(d.take(k + 1))) by {
            assert forall|j: int| 0 <= j < k + 1 implies is_digit(#[trigger] d.take(k + 1)[j]) by {
                if j < k {
                    assert(d.take(k + 1)[j] == d.take(k)[j]);
                }
            }
        }
        if v > 255 {
            proof {
                if all_digits(d) {
                    lemma_digits_value_prefix(d, k + 1);
                }
                assert(parse_u8(cs@) is None);
            }
            return None;
        }
        i = i + 1;
    }
    assert(d.take(cs@.len() - start) =~= d);
    Some(v as u8)
}

/// Whether `a` and `b` hold the same characters.
pub fn same_text(a: &str, b: &str) -> (r: bool)
    ensures
        r == (a@ == b@),
{
    a.to_owned() == b.to_owned()
}

/// The pieces of `s` between commas, as `str::split(',')` yields them: one
/// more piece than there are commas, empty pieces included.
pub open spec fn split_commas(s: Seq<char>) -> Seq<Seq<char>>
    decreases s.len(),
{
    if s.len() == 0 {
        seq![Seq::empty()]
    } else {
        let p = split_commas(s.drop_last());
        if s.last() == ',' {
            p.push(Seq::empty())
        } else {
            p.update(p.len() - 1, p.last().push(s.last()))
        }
    }
}

/// Splitting always yields at least one piece.
pub proof fn lemma_split_nonempty(s: Seq<char>)
    ensures
        split_commas(s).len() >= 1,
    decreases s.len(),
{
    if s.len() > 0 {
        lemma_split_nonempty(s.drop_last());
    }
}

/// The trimmed pieces of `s` between commas (`s.split(',').map(str::trim)`).
pub open spec fn trimmed_pieces(s: Seq<char>) -> Seq<Seq<char>> {
    split_commas(s).map_values(|p: Seq<char>| trim(p))
}

/// The pieces of `s` between commas, each trimmed of white space.
pub fn split_trimmed(s: &str) -> (r: Vec<Vec<char>>)
    ensures
        r@.len() == trimmed_pieces(s@).len(),
        forall|k: int| 0 <= k < r@.len() ==> #[trigger] r@[k]@ == trimmed_pieces(s@)[k],
{
    let cs = chars_of(s);
    let mut pieces: Vec<Vec<char>> = Vec::new();
    let mut current: Vec<char> = Vec::new();
    let mut i: usize = 0;
    proof {
        assert(cs@.take(0) =~= Seq::<char>::empty());
    }
    while i < cs.len()
        invariant
            i <= cs@.len(),
            cs@ == s@,
            pieces@.len() + 1 == split_commas(cs@.take(i as int)).len(),
            forall|k: int| 0 <= k < pieces@.len() ==> #[trigger] pieces@[k]@ == split_commas(
                cs@.take(i as int),
            )[k],
            current@ == split_commas(cs@.take(i as int)).last(),
        decreases cs@.len() - i,
    {
        let c = cs[i];
        proof {
            let t = cs@.take(i + 1);
            assert(t.drop_last() =~= cs@.take(i as int));
            assert(t.last() == c);
            lemma_split_nonempty(cs@.take(i as int));
        }
        if c == ',' {
            let done = current;
            pieces.push(done);
            current = Vec::new();
        } else {
            current.push(c);
        }
        i = i + 1;
    }
    pieces.push(current);
    proof {
        assert(cs@.take(cs@.len() as int) =~= cs@);
        lemma_split_nonempty(cs@);
    }
    let ghost raw = split_commas(s@);
    let mut out: Vec<Vec<char>> = Vec::new();
    let mut k: usize = 0;
    while k < pieces.len()
        invariant
            k <= pieces@.len(),
            pieces@.len() == raw.len(),
            raw == split_commas(s@),
            forall|q: int| 0 <= q < pieces@.len() ==> #[trigger] pieces@[q]@ == raw[q],
            out@.len() == k,
            forall|q: int| 0 <= q < k ==> #[trigger] out@[q]@ == trim(raw[q]),
        decreases pieces@.len() - k,
    {
        let (a, b) = trim_bounds(&pieces[k]);
        let mut t: Vec<char> = Vec::new();
        let mut j = a;
        while j < b
            invariant
                k < pieces@.len(),
                a <= j <= b <= pieces@[k as int]@.len(),
                t@ == pieces@[k as int]@.subrange(a as int, j as int),
            decreases b - j,
        {
            t.push(pieces[k][j]);
            proof {
                assert(pieces@[k as int]@.subrange(a as int, j + 1) =~= pieces@[k as int]@.subrange(
                    a as int,
                    j as int,
                ).push(pieces@[k as int]@[j as int]));
            }
            j = j + 1;
        }
        out.push(t);
        k = k + 1;
    }
    out
}

/// `c` in lower case where it is an ASCII capital letter; otherwise `c`.
pub open spec fn ascii_lower(c: char) -> char {
    if 65 <= (c as int) <= 90 {
        ((c as int) + 32) as char
    } else {
        c
    }
}

/// Whether `s` equals `word` when ASCII capitals are lowered. For a `word`
/// of lower-case ASCII letters other than `i` and `k`, and digits, this is
/// `s.to_lowercase() == word`: no other character lowers to one of them.
pub open spec fn lowers_to(s: Seq<char>, word: Seq<char>) -> bool {
    s.len() == word.len() && forall|i: int| 0 <= i < s.len() ==> ascii_lower(#[trigger] s[i]) == word[i]
}

/// Whether `s` equals `word` when ASCII capitals are lowered.
pub fn chars_lower_to(s: &Vec<char>, word: &Vec<char>) -> (r: bool)
    ensures
        r == lowers_to(s@, word@),
{
    if s.len() != word.len() {
        return false;
    }
    let mut i: usize = 0;
    while i < s.len()
        invariant
            i <= s@.len(),
            s@.len() == word@.len(),
            forall|j: int| 0 <= j < i ==> ascii_lower(#[trigger] s@[j]) == word@[j],
        decreases s@.len() - i,
    {
        let c = s[i];
        let lower = if 'A' <= c && c <= 'Z' {
            ((c as u32 + 32) as u8) as char
        } else {
            c
        };
        assert(lower == ascii_lower(c));
        if lower != word[i] {
            return false;
        }
        i = i + 1;
    }
    true
}

} // verus!
