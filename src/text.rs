//! Character-level helpers shared by the scalar codecs: white space, trimming,
//! searching, decimal numbers.
use vstd::prelude::*;

verus! {

/// The characters that carry the Unicode `White_Space` property.
pub open spec fn is_white_space(c: char) -> bool {
    ('\u{9}' <= c && c <= '\u{d}') || c == ' ' || c == '\u{85}' || c == '\u{a0}'
        || c == '\u{1680}' || ('\u{2000}' <= c && c <= '\u{200a}') || c == '\u{2028}'
        || c == '\u{2029}' || c == '\u{202f}' || c == '\u{205f}' || c == '\u{3000}'
}

pub open spec fn trim_front(s: Seq<char>) -> Seq<char>
    decreases s.len(),
{
    if s.len() > 0 && is_white_space(s[0]) {
        trim_front(s.drop_first())
    } else {
        s
    }
}

pub open spec fn trim_back(s: Seq<char>) -> Seq<char>
    decreases s.len(),
{
    if s.len() > 0 && is_white_space(s.last()) {
        trim_back(s.drop_last())
    } else {
        s
    }
}

/// `s` without white space at either end.
pub open spec fn trim(s: Seq<char>) -> Seq<char> {
    trim_back(trim_front(s))
}

/// The first position of `c` in `s`, or -1.
pub open spec fn index_of(s: Seq<char>, c: char) -> int
    decreases s.len(),
{
    if s.len() == 0 {
        -1
    } else if s[0] == c {
        0
    } else {
        let r = index_of(s.drop_first(), c);
        if r < 0 {
            -1
        } else {
            r + 1
        }
    }
}

pub open spec fn is_digit(c: char) -> bool {
    '0' <= c && c <= '9'
}

pub open spec fn digit_value(c: char) -> nat {
    (c as u32 - '0' as u32) as nat
}

pub open spec fn digit_char(d: nat) -> char {
    if d == 0 { '0' } else if d == 1 { '1' } else if d == 2 { '2' } else if d == 3 { '3' }
    else if d == 4 { '4' } else if d == 5 { '5' } else if d == 6 { '6' } else if d == 7 { '7' }
    else if d == 8 { '8' } else { '9' }
}

pub open spec fn all_digits(s: Seq<char>) -> bool {
    forall|i: int| 0 <= i < s.len() ==> is_digit(#[trigger] s[i])
}

/// The value of a string of decimal digits.
pub open spec fn digits_value(s: Seq<char>) -> nat
    decreases s.len(),
{
    if s.len() == 0 {
        0
    } else {
        digits_value(s.drop_last()) * 10 + digit_value(s.last())
    }
}

/// What `str::parse` reads as an unsigned integer: an optional `+`, then at
/// least one decimal digit (before any bound on the value).
pub open spec fn unsigned_value(s: Seq<char>) -> Option<nat> {
    let d = if s.len() > 0 && s[0] == '+' { s.drop_first() } else { s };
    if d.len() > 0 && all_digits(d) {
        Some(digits_value(d))
    } else {
        None
    }
}

/// What `str::parse` reads as a signed integer: an optional `+` or `-`, then at
/// least one decimal digit (before any bound on the value).
pub open spec fn signed_value(s: Seq<char>) -> Option<int> {
    if s.len() > 0 && s[0] == '-' {
        let d = s.drop_first();
        if d.len() > 0 && all_digits(d) {
            Some(-digits_value(d))
        } else {
            None
        }
    } else {
        match unsigned_value(s) {
            Some(v) => Some(v as int),
            None => None,
        }
    }
}

/// `str::parse::<u64>`.
pub open spec fn parse_u64_spec(s: Seq<char>) -> Option<u64> {
    match unsigned_value(s) {
        Some(v) => if v <= u64::MAX { Some(v as u64) } else { None },
        None => None,
    }
}

/// `str::parse::<u32>`.
pub open spec fn parse_u32_spec(s: Seq<char>) -> Option<u32> {
    match unsigned_value(s) {
        Some(v) => if v <= u32::MAX { Some(v as u32) } else { None },
        None => None,
    }
}

/// `str::parse::<i32>`.
pub open spec fn parse_i32_spec(s: Seq<char>) -> Option<i32> {
    match signed_value(s) {
        Some(v) => if i32::MIN <= v <= i32::MAX { Some(v as i32) } else { None },
        None => None,
    }
}

/// The shortest decimal representation of `n`.
pub open spec fn decimal(n: nat) -> Seq<char>
    decreases n,
{
    if n < 10 {
        seq![digit_char(n)]
    } else {
        decimal(n / 10) + seq![digit_char(n % 10)]
    }
}

/// The decimal representation of `n`, with leading zeros up to two digits.
pub open spec fn decimal2(n: nat) -> Seq<char> {
    if n < 10 {
        seq!['0'] + decimal(n)
    } else {
        decimal(n)
    }
}

/// The decimal representation of `n`, with leading zeros up to three digits.
pub open spec fn decimal3(n: nat) -> Seq<char> {
    if n < 10 {
        seq!['0', '0'] + decimal(n)
    } else if n < 100 {
        seq!['0'] + decimal(n)
    } else {
        decimal(n)
    }
}

/// The decimal representation of a signed integer, as `Display` writes it.
pub open spec fn signed_decimal(v: int) -> Seq<char> {
    if v < 0 {
        seq!['-'] + decimal((-v) as nat)
    } else {
        decimal(v as nat)
    }
}

pub fn is_white_space_char(c: char) -> (r: bool)
    ensures
        r == is_white_space(c),
{
    ('\u{9}' <= c && c <= '\u{d}') || c == ' ' || c == '\u{85}' || c == '\u{a0}'
        || c == '\u{1680}' || ('\u{2000}' <= c && c <= '\u{200a}') || c == '\u{2028}'
        || c == '\u{2029}' || c == '\u{202f}' || c == '\u{205f}' || c == '\u{3000}'
}

proof fn lemma_trim_front_skip(s: Seq<char>, i: int)
    requires
        0 <= i < s.len(),
        is_white_space(s[i]),
    ensures
        trim_front(s.subrange(i, s.len() as int)) == trim_front(s.subrange(i + 1, s.len() as int)),
{
    assert(s.subrange(i, s.len() as int).drop_first() =~= s.subrange(i + 1, s.len() as int));
}

proof fn lemma_trim_back_skip(s: Seq<char>, j: int)
    requires
        0 < j <= s.len(),
        is_white_space(s[j - 1]),
    ensures
        trim_back(s.subrange(0, j)) == trim_back(s.subrange(0, j - 1)),
{
    assert(s.subrange(0, j).drop_last() =~= s.subrange(0, j - 1));
}

/// `str::trim`: the part of `s` without white space at either end.
pub fn trim_str(s: &str) -> (r: &str)
    ensures
        r@ == trim(s@),
{
    let n = s.unicode_len();
    let mut i: usize = 0;
    assert(s@.subrange(0, n as int) =~= s@);
    while i < n && is_white_space_char(s.get_char(i))
        invariant
            n == s@.len(),
            i <= n,
            trim_front(s@) == trim_front(s@.subrange(i as int, n as int)),
        decreases n - i,
    {
        proof {
            lemma_trim_front_skip(s@, i as int);
        }
        i = i + 1;
    }
    let t = s.substring_char(i, n);
    assert(trim_front(s@) == t@);
    let mut j: usize = n - i;
    assert(t@.subrange(0, j as int) =~= t@);
    while j > 0 && is_white_space_char(t.get_char(j - 1))
        invariant
            j <= t@.len(),
            trim_back(t@) == trim_back(t@.subrange(0, j as int)),
        decreases j,
    {
        proof {
            lemma_trim_back_skip(t@, j as int);
        }
        j = j - 1;
    }
    t.substring_char(0, j)
}

proof fn lemma_index_of_prefix(s: Seq<char>, c: char, i: int)
    requires
        0 <= i <= s.len(),
        forall|k: int| 0 <= k < i ==> s[k] != c,
    ensures
        index_of(s, c) == if index_of(s.subrange(i, s.len() as int), c) < 0 { -1 } else {
            index_of(s.subrange(i, s.len() as int), c) + i
        },
    decreases i,
{
    if i > 0 {
        assert(s.drop_first().subrange(i - 1, s.drop_first().len() as int) =~= s.subrange(
            i,
            s.len() as int,
        ));
        lemma_index_of_prefix(s.drop_first(), c, i - 1);
    } else {
        assert(s.subrange(0, s.len() as int) =~= s);
    }
}

/// The first position of `c` in `s`, if any.
pub fn find_char(s: &str, c: char) -> (r: Option<usize>)
    ensures
        r is None <==> index_of(s@, c) < 0,
        r matches Some(i) ==> i == index_of(s@, c) && i < s@.len() && s@[i as int] == c,
{
    let n = s.unicode_len();
    let mut i: usize = 0;
    while i < n
        invariant
            n == s@.len(),
            i <= n,
            forall|k: int| 0 <= k < i ==> s@[k] != c,
        decreases n - i,
    {
        if s.get_char(i) == c {
            proof {
                lemma_index_of_prefix(s@, c, i as int);
            }
            return Some(i);
        }
        i = i + 1;
    }
    proof {
        lemma_index_of_prefix(s@, c, n as int);
    }
    None
}

/// Whether two strings hold the same characters.
pub fn str_eq(a: &str, b: &str) -> (r: bool)
    ensures
        r == (a@ == b@),
{
    let n = a.unicode_len();
    if n != b.unicode_len() {
        return false;
    }
    let mut i: usize = 0;
    while i < n
        invariant
            n == a@.len(),
            n == b@.len(),
            i <= n,
            forall|k: int| 0 <= k < i ==> a@[k] == b@[k],
        decreases n - i,
    {
        if a.get_char(i) != b.get_char(i) {
            return false;
        }
        i = i + 1;
    }
    assert(a@ =~= b@);
    true
}


/// A string of decimal digits whose value is at most `max`, read as that value.
pub open spec fn digits_bounded(d: Seq<char>, max: nat) -> Option<u64> {
    if d.len() > 0 && all_digits(d) && digits_value(d) <= max {
        Some(digits_value(d) as u64)
    } else {
        None
    }
}

proof fn lemma_digits_value_grows(d: Seq<char>, m: int)
    requires
        0 <= m <= d.len(),
        all_digits(d),
    ensures
        digits_value(d.subrange(0, m)) <= digits_value(d),
    decreases d.len(),
{
    if m < d.len() {
        assert(all_digits(d.drop_last()));
        assert(d.drop_last().subrange(0, m) =~= d.subrange(0, m));
        lemma_digits_value_grows(d.drop_last(), m);
    } else {
        assert(d.subrange(0, m) =~= d);
    }
}

/// Reads `s[from..]` as decimal digits whose value is at most `max`.
pub fn parse_digits(s: &str, from: usize, max: u64) -> (r: Option<u64>)
    requires
        from <= s@.len(),
    ensures
        r == digits_bounded(s@.subrange(from as int, s@.len() as int), max as nat),
{
    let n = s.unicode_len();
    let ghost d = s@.subrange(from as int, n as int);
    if from >= n {
        return None;
    }
    let mut v: u64 = 0;
    let mut k: usize = from;
    while k < n
        invariant
            n == s@.len(),
            from <= k <= n,
            d == s@.subrange(from as int, n as int),
            all_digits(s@.subrange(from as int, k as int)),
            v as nat == digits_value(s@.subrange(from as int, k as int)),
            v <= max,
        decreases n - k,
    {
        let c = s.get_char(k);
        if !('0' <= c && c <= '9') {
            assert(!is_digit(d[k - from]));
            return None;
        }
        let dv = (c as u32 - '0' as u32) as u64;
        assert(s@.subrange(from as int, k + 1).drop_last() =~= s@.subrange(from as int, k as int));
        if dv > max || v > (max - dv) / 10 {
            proof {
                if dv <= max {
                    assert(v * 10 + dv > max) by (nonlinear_arith)
                        requires
                            v > (max - dv) / 10,
                            dv <= max,
                    ;
                }
                if all_digits(d) {
                    assert(d.subrange(0, k + 1 - from) =~= s@.subrange(from as int, k + 1));
                    lemma_digits_value_grows(d, k + 1 - from);
                }
            }
            return None;
        }
        assert(v * 10 + dv <= max) by (nonlinear_arith)
            requires
                v <= (max - dv) / 10,
                dv <= max,
        ;
        v = v * 10 + dv;
        k = k + 1;
    }
    assert(s@.subrange(from as int, k as int) =~= d);
    Some(v)
}

/// Reads an unsigned integer of at most `max` the way `str::parse` does.
pub fn parse_unsigned(s: &str, max: u64) -> (r: Option<u64>)
    ensures
        r == (match unsigned_value(s@) {
            Some(v) => if v <= max { Some(v as u64) } else { None },
            None => None,
        }),
{
    let n = s.unicode_len();
    if n > 0 && s.get_char(0) == '+' {
        assert(s@.subrange(1, n as int) =~= s@.drop_first());
        parse_digits(s, 1, max)
    } else {
        assert(s@.subrange(0, n as int) =~= s@);
        parse_digits(s, 0, max)
    }
}

/// `str::parse::<u64>`, which fails on anything but an optional `+` and digits
/// of a value that fits.
pub fn parse_u64(s: &str) -> (r: Option<u64>)
    ensures
        r == parse_u64_spec(s@),
{
    parse_unsigned(s, u64::MAX)
}

/// `str::parse::<u32>`.
pub fn parse_u32(s: &str) -> (r: Option<u32>)
    ensures
        r == parse_u32_spec(s@),
{
    match parse_unsigned(s, u32::MAX as u64) {
        Some(v) => Some(v as u32),
        None => None,
    }
}

/// `str::parse::<i32>`, which takes an optional sign and digits of a value
/// that fits.
pub fn parse_i32(s: &str) -> (r: Option<i32>)
    ensures
        r == parse_i32_spec(s@),
{
    let n = s.unicode_len();
    if n > 0 && s.get_char(0) == '-' {
        assert(s@.subrange(1, n as int) =~= s@.drop_first());
        match parse_digits(s, 1, 2147483648) {
            Some(v) => Some((0 - (v as i64)) as i32),
            None => None,
        }
    } else {
        match parse_unsigned(s, i32::MAX as u64) {
            Some(v) => Some(v as i32),
            None => None,
        }
    }
}

fn digit_str(d: u64) -> (r: &'static str)
    requires
        d < 10,
    ensures
        r@ == seq![digit_char(d as nat)],
{
    let r = if d == 0 { "0" } else if d == 1 { "1" } else if d == 2 { "2" } else if d == 3 { "3" }
    else if d == 4 { "4" } else if d == 5 { "5" } else if d == 6 { "6" } else if d == 7 { "7" }
    else if d == 8 { "8" } else { "9" };
    proof {
        reveal_strlit("0");
        reveal_strlit("1");
        reveal_strlit("2");
        reveal_strlit("3");
        reveal_strlit("4");
        reveal_strlit("5");
        reveal_strlit("6");
        reveal_strlit("7");
        reveal_strlit("8");
        reveal_strlit("9");
    }
    assert(r@ =~= seq![digit_char(d as nat)]);
    r
}

/// Appends the decimal representation of `n`.
pub fn write_decimal(out: &mut String, n: u64)
    ensures
        final(out)@ == old(out)@ + decimal(n as nat),
    decreases n,
{
    if n >= 10 {
        write_decimal(out, n / 10);
    }
    out.append(digit_str(n % 10));
    assert(final(out)@ =~= old(out)@ + decimal(n as nat));
}

/// Appends the decimal representation of `n`, at least two digits wide.
pub fn write_decimal2(out: &mut String, n: u64)
    ensures
        final(out)@ == old(out)@ + decimal2(n as nat),
{
    if n < 10 {
        out.append("0");
        proof {
            reveal_strlit("0");
        }
    }
    write_decimal(out, n);
    assert(final(out)@ =~= old(out)@ + decimal2(n as nat));
}

/// Appends the decimal representation of `n`, at least three digits wide.
pub fn write_decimal3(out: &mut String, n: u64)
    ensures
        final(out)@ == old(out)@ + decimal3(n as nat),
{
    proof {
        reveal_strlit("0");
        reveal_strlit("00");
    }
    if n < 10 {
        out.append("00");
    } else if n < 100 {
        out.append("0");
    }
    write_decimal(out, n);
    assert(final(out)@ =~= old(out)@ + decimal3(n as nat));
}

/// Appends a signed integer as `Display` writes it.
pub fn write_signed(out: &mut String, v: i32)
    ensures
        final(out)@ == old(out)@ + signed_decimal(v as int),
{
    if v < 0 {
        out.append("-");
        proof {
            reveal_strlit("-");
        }
        write_decimal(out, (0 - (v as i64)) as u64);
    } else {
        write_decimal(out, v as u64);
    }
    assert(final(out)@ =~= old(out)@ + signed_decimal(v as int));
}

proof fn lemma_digit_char(d: nat)
    requires
        d < 10,
    ensures
        is_digit(digit_char(d)),
        digit_value(digit_char(d)) == d,
{
}

/// The digits that `decimal` writes read back as the number.
pub proof fn lemma_decimal(n: nat)
    ensures
        decimal(n).len() > 0,
        all_digits(decimal(n)),
        digits_value(decimal(n)) == n,
    decreases n,
{
    lemma_digit_char(n % 10);
    if n >= 10 {
        lemma_decimal(n / 10);
        let d = decimal(n);
        assert(d.drop_last() =~= decimal(n / 10));
        assert(d.last() == digit_char(n % 10));
        assert(digits_value(d) == digits_value(d.drop_last()) * 10 + digit_value(d.last()));
        assert(digits_value(d) == (n / 10) * 10 + n % 10);
        assert((n / 10) * 10 + n % 10 == n) by (nonlinear_arith);
    } else {
        assert(decimal(n).drop_last() =~= Seq::<char>::empty());
        assert(digits_value(decimal(n)) == digits_value(decimal(n).drop_last()) * 10
            + digit_value(decimal(n).last()));
    }
}

proof fn lemma_leading_zero(d: Seq<char>)
    ensures
        digits_value(seq!['0'] + d) == digits_value(d),
    decreases d.len(),
{
    if d.len() > 0 {
        assert((seq!['0'] + d).drop_last() =~= seq!['0'] + d.drop_last());
        lemma_leading_zero(d.drop_last());
    } else {
        assert((seq!['0'] + d).drop_last() =~= d);
    }
}

/// The padded forms read back as the number too.
pub proof fn lemma_decimal_padded(n: nat)
    ensures
        decimal2(n).len() > 0,
        all_digits(decimal2(n)),
        digits_value(decimal2(n)) == n,
        decimal3(n).len() > 0,
        all_digits(decimal3(n)),
        digits_value(decimal3(n)) == n,
{
    lemma_decimal(n);
    lemma_leading_zero(decimal(n));
    lemma_leading_zero(seq!['0'] + decimal(n));
    assert(seq!['0', '0'] + decimal(n) =~= seq!['0'] + (seq!['0'] + decimal(n)));
}

/// A string of digits contains no character that is not a digit.
pub proof fn lemma_digits_have_no(s: Seq<char>, c: char)
    requires
        all_digits(s),
        !is_digit(c),
    ensures
        index_of(s, c) < 0,
    decreases s.len(),
{
    if s.len() > 0 {
        assert(all_digits(s.drop_first()));
        lemma_digits_have_no(s.drop_first(), c);
    }
}

/// Reading back what `write_signed` writes gives the value.
pub proof fn lemma_signed_round_trip(v: i32)
    ensures
        parse_i32_spec(signed_decimal(v as int)) == Some(v),
{
    let s = signed_decimal(v as int);
    if v < 0 {
        lemma_decimal((-v) as nat);
        assert(s.drop_first() =~= decimal((-v) as nat));
    } else {
        lemma_decimal(v as nat);
        assert(s[0] != '-' && s[0] != '+') by {
            assert(is_digit(s[0]));
        }
    }
}

/// Reading back a padded decimal gives the value.
pub proof fn lemma_unsigned_round_trip(n: nat)
    ensures
        unsigned_value(decimal2(n)) == Some(n),
        unsigned_value(decimal3(n)) == Some(n),
        unsigned_value(decimal(n)) == Some(n),
{
    lemma_decimal_padded(n);
    lemma_decimal(n);
    assert(is_digit(decimal2(n)[0]));
    assert(is_digit(decimal3(n)[0]));
    assert(is_digit(decimal(n)[0]));
}

/// Where a character first occurs in a concatenation.
pub proof fn lemma_index_of_concat(x: Seq<char>, y: Seq<char>, c: char)
    ensures
        index_of(x + y, c) == if index_of(x, c) >= 0 {
            index_of(x, c)
        } else if index_of(y, c) < 0 {
            -1
        } else {
            x.len() + index_of(y, c)
        },
    decreases x.len(),
{
    if x.len() > 0 {
        assert((x + y).drop_first() =~= x.drop_first() + y);
        lemma_index_of_concat(x.drop_first(), y, c);
    } else {
        assert(x + y =~= y);
    }
}

/// A string that neither starts nor ends with white space is its own trim.
pub proof fn lemma_trim_digits_ends(s: Seq<char>)
    requires
        s.len() > 0,
        !is_white_space(s[0]),
        !is_white_space(s.last()),
    ensures
        trim(s) == s,
{
}

/// The ASCII letter `c` in lower case; any other character as it is.
pub open spec fn ascii_lower(c: char) -> char {
    if 'A' <= c && c <= 'Z' {
        (((c as u8) + 32) as u8) as char
    } else {
        c
    }
}

pub open spec fn lower_ascii(s: Seq<char>) -> Seq<char> {
    s.map_values(|c: char| ascii_lower(c))
}

fn ascii_lower_char(c: char) -> (r: char)
    ensures
        r == ascii_lower(c),
{
    if 'A' <= c && c <= 'Z' {
        assert((c as u8) <= 90);
        ((c as u8) + 32) as char
    } else {
        c
    }
}

/// Whether two strings are equal but for the case of ASCII letters.
pub fn eq_ignore_ascii_case(a: &str, b: &str) -> (r: bool)
    ensures
        r == (lower_ascii(a@) == lower_ascii(b@)),
{
    let n = a.unicode_len();
    if n != b.unicode_len() {
        assert(lower_ascii(a@).len() != lower_ascii(b@).len());
        return false;
    }
    let mut i: usize = 0;
    while i < n
        invariant
            n == a@.len(),
            n == b@.len(),
            i <= n,
            forall|k: int| 0 <= k < i ==> ascii_lower(a@[k]) == ascii_lower(b@[k]),
        decreases n - i,
    {
        if ascii_lower_char(a.get_char(i)) != ascii_lower_char(b.get_char(i)) {
            assert(lower_ascii(a@)[i as int] != lower_ascii(b@)[i as int]);
            return false;
        }
        i = i + 1;
    }
    assert(lower_ascii(a@) =~= lower_ascii(b@));
    true
}

/// A character that does not occur in `s` has no position in it.
pub proof fn lemma_index_of_absent(s: Seq<char>, c: char)
    requires
        forall|i: int| 0 <= i < s.len() ==> s[i] != c,
    ensures
        index_of(s, c) < 0,
    decreases s.len(),
{
    if s.len() > 0 {
        lemma_index_of_absent(s.drop_first(), c);
    }
}

/// The text of a signed integer starts with a digit or `-`, ends with a digit,
/// and holds nothing else.
pub proof fn lemma_signed_decimal_shape(v: int)
    ensures
        signed_decimal(v).len() > 0,
        is_digit(signed_decimal(v).last()),
        is_digit(signed_decimal(v)[0]) || signed_decimal(v)[0] == '-',
        forall|i: int|
            0 <= i < signed_decimal(v).len() ==> is_digit(#[trigger] signed_decimal(v)[i])
                || signed_decimal(v)[i] == '-',
{
    if v < 0 {
        lemma_decimal((-v) as nat);
    } else {
        lemma_decimal(v as nat);
    }
}

/// Lowering the case twice is lowering it once.
pub proof fn lemma_lower_ascii_idempotent(s: Seq<char>)
    ensures
        lower_ascii(lower_ascii(s)) == lower_ascii(s),
{
    assert forall|i: int| 0 <= i < s.len() implies ascii_lower(ascii_lower(s[i])) == ascii_lower(
        s[i],
    ) by {
        let c = s[i];
        if 'A' <= c && c <= 'Z' {
            assert((c as u8) <= 90);
            assert((c as u8) >= 65);
        }
    }
    assert(lower_ascii(lower_ascii(s)) =~= lower_ascii(s));
}
} // verus!
