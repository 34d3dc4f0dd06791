//! `Duration`: a span of time written `HH:MM:SS` or `HH:MM:SS.mmm`.
use vstd::prelude::*;
use vstd::arithmetic::div_mod::{lemma_fundamental_div_mod, lemma_mod_mod};
use crate::error::{VastParseError, quoted_error};
use crate::text::{
    trim, index_of, parse_u64_spec, decimal, decimal2, decimal3, is_digit, trim_str, find_char,
    parse_u64, parse_digits, digits_bounded, write_decimal2, write_decimal3, lemma_decimal_padded,
    lemma_unsigned_round_trip, lemma_digits_have_no,
};

verus! {

/// A span of time, held as whole seconds and the milliseconds beyond them.
#[derive(Debug, Clone, Copy, PartialEq, Eq, Structural, Default)]
pub struct Duration {
    pub secs: u64,
    pub millis: u32,
}

pub const SECS_PER_MINUTE: u64 = 60;

pub const SECS_PER_HOUR: u64 = 3600;

/// The span of `h` hours, `m` minutes, `s` seconds and `ms` milliseconds, where
/// it can be held: the milliseconds fit a nanosecond count of 32 bits and the
/// seconds fit 64 bits.
pub open spec fn duration_of(h: nat, m: nat, s: nat, ms: nat) -> Option<Duration> {
    let secs = h * 3600 + m * 60 + s + ms / 1000;
    if ms <= 4294 && secs <= u64::MAX {
        Some(Duration { secs: secs as u64, millis: (ms % 1000) as u32 })
    } else {
        None
    }
}

/// The three fields of `HH:MM:SS[.mmm]`, split at `:`; `None` unless there are
/// exactly three.
pub open spec fn split_fields(t: Seq<char>) -> Option<(Seq<char>, Seq<char>, Seq<char>)> {
    let i = index_of(t, ':');
    let rest = t.subrange(i + 1, t.len() as int);
    let j = index_of(rest, ':');
    let tail = rest.subrange(j + 1, rest.len() as int);
    if i < 0 || j < 0 || index_of(tail, ':') >= 0 {
        None
    } else {
        Some((t.subrange(0, i), rest.subrange(0, j), tail))
    }
}

/// A fraction of a second, `mmm`: one to three decimal digits, read as a
/// count of milliseconds.
pub open spec fn fraction_millis(f: Seq<char>) -> Option<u32> {
    if f.len() <= 3 {
        match digits_bounded(f, 999) {
            Some(v) => Some(v as u32),
            None => None,
        }
    } else {
        None
    }
}

/// Reads a fraction of a second: one to three decimal digits.
pub fn read_fraction(f: &str) -> (r: Option<u32>)
    ensures
        r == fraction_millis(f@),
{
    let n = f.unicode_len();
    if n > 3 {
        return None;
    }
    assert(f@.subrange(0, n as int) =~= f@);
    match parse_digits(f, 0, 999) {
        Some(v) => Some(v as u32),
        None => None,
    }
}

/// The fields read as numbers; the last may carry a fraction after its first
/// `.`, read as a count of milliseconds.
pub open spec fn read_fields(hh: Seq<char>, mm: Seq<char>, ss_ms: Seq<char>) -> Option<Duration> {
    let k = index_of(ss_ms, '.');
    let ss = if k < 0 { ss_ms } else { ss_ms.subrange(0, k) };
    let ms = if k < 0 { Some(0u32) } else { fraction_millis(ss_ms.subrange(k + 1, ss_ms.len() as int)) };
    match (parse_u64_spec(hh), parse_u64_spec(mm), parse_u64_spec(ss), ms) {
        (Some(h), Some(m), Some(sec), Some(ms)) => duration_of(h as nat, m as nat, sec as nat, ms as nat),
        _ => None,
    }
}

/// The text `HH:MM:SS[.mmm]` read as a duration; white space at either end is
/// ignored.
pub open spec fn parse_duration(s: Seq<char>) -> Option<Duration> {
    match split_fields(trim(s)) {
        Some((hh, mm, ss_ms)) => read_fields(hh, mm, ss_ms),
        None => None,
    }
}

impl Duration {
    /// Well formed: the milliseconds are below one second.
    pub open spec fn wf(self) -> bool {
        self.millis < 1000
    }

    /// The whole span in milliseconds.
    pub open spec fn total_millis(self) -> nat {
        (self.secs * 1000 + self.millis) as nat
    }

    /// The canonical text: two-digit (at least) hours, minutes and seconds, and
    /// three digits of milliseconds only when there are any.
    pub open spec fn format_spec(self) -> Seq<char> {
        let h = self.secs / 3600;
        let m = (self.secs % 3600) / 60;
        let s = self.secs % 60;
        decimal2(h as nat) + seq![':'] + decimal2(m as nat) + seq![':'] + decimal2(s as nat)
            + self.fraction_spec()
    }

    /// `.mmm` when there are milliseconds, else nothing.
    pub open spec fn fraction_spec(self) -> Seq<char> {
        if self.millis > 0 {
            seq!['.'] + decimal3(self.millis as nat)
        } else {
            Seq::<char>::empty()
        }
    }

    pub fn new(hours: u64, minutes: u64, secs: u64, milli_secs: u32) -> (r: Self)
        requires
            duration_of(hours as nat, minutes as nat, secs as nat, milli_secs as nat) is Some,
        ensures
            Some(r) == duration_of(hours as nat, minutes as nat, secs as nat, milli_secs as nat),
            r.wf(),
    {
        let total = hours * SECS_PER_HOUR + minutes * SECS_PER_MINUTE + secs + (milli_secs / 1000) as u64;
        Self { secs: total, millis: milli_secs % 1000 }
    }

    /// Whether the span is empty.
    pub fn is_zero(&self) -> (r: bool)
        ensures
            r == (self.total_millis() == 0),
    {
        self.secs == 0 && self.millis == 0
    }

    /// `HH:MM:SS`, followed by `.mmm` when the milliseconds are not zero.
    pub fn to_string(&self) -> (r: String)
        ensures
            r@ == self.format_spec(),
    {
        let mut out = String::new();
        self.write_to(&mut out);
        out
    }

    /// Appends the text of `to_string`.
    pub fn write_to(&self, out: &mut String)
        ensures
            final(out)@ == old(out)@ + self.format_spec(),
    {
        let h = self.secs / SECS_PER_HOUR;
        let m = (self.secs % SECS_PER_HOUR) / SECS_PER_MINUTE;
        let s = self.secs % SECS_PER_MINUTE;
        write_decimal2(out, h);
        out.append(":");
        write_decimal2(out, m);
        out.append(":");
        write_decimal2(out, s);
        proof {
            reveal_strlit(":");
            reveal_strlit(".");
        }
        if self.millis > 0 {
            out.append(".");
            write_decimal3(out, self.millis as u64);
        }
        assert(final(out)@ =~= old(out)@ + self.format_spec());
    }

    /// Reads `HH:MM:SS` or `HH:MM:SS.mmm`.
    pub fn from_str(s: &str) -> (r: Result<Self, VastParseError>)
        ensures
            r matches Ok(d) ==> parse_duration(s@) == Some(d) && d.wf(),
            r matches Err(e) ==> parse_duration(s@) is None
                && e.input@ == quoted_error("duration parse error: "@, s@),
    {
        match Self::read(s) {
            Some(d) => Ok(d),
            None => Err(VastParseError::quoting("duration parse error: ", s)),
        }
    }

    fn read(s: &str) -> (r: Option<Self>)
        ensures
            r == parse_duration(s@),
            r matches Some(d) ==> d.wf(),
    {
        let t = trim_str(s);
        let n = t.unicode_len();
        let i = match find_char(t, ':') {
            Some(i) => i,
            None => return None,
        };
        let rest = t.substring_char(i + 1, n);
        let rn = rest.unicode_len();
        let j = match find_char(rest, ':') {
            Some(j) => j,
            None => return None,
        };
        let tail = rest.substring_char(j + 1, rn);
        let tn = tail.unicode_len();
        if find_char(tail, ':').is_some() {
            return None;
        }
        let h = match parse_u64(t.substring_char(0, i)) {
            Some(v) => v,
            None => return None,
        };
        let m = match parse_u64(rest.substring_char(0, j)) {
            Some(v) => v,
            None => return None,
        };
        let (sec, ms) = match find_char(tail, '.') {
            Some(k) => {
                let sec = parse_u64(tail.substring_char(0, k));
                let ms = read_fraction(tail.substring_char(k + 1, tn));
                (sec, ms)
            },
            None => (parse_u64(tail), Some(0u32)),
        };
        match (sec, ms) {
            (Some(sec), Some(ms)) => {
                if ms > 4294 || h > u64::MAX / SECS_PER_HOUR {
                    return None;
                }
                let hs = h * SECS_PER_HOUR;
                if m > (u64::MAX - hs) / SECS_PER_MINUTE {
                    return None;
                }
                let hms = hs + m * SECS_PER_MINUTE;
                if sec > u64::MAX - hms {
                    return None;
                }
                let base = hms + sec;
                if (ms / 1000) as u64 > u64::MAX - base {
                    return None;
                }
                Some(Self::new(h, m, sec, ms))
            },
            _ => None,
        }
    }

    /// The whole seconds of the span.
    pub fn as_secs(&self) -> (r: u64)
        ensures
            r == self.secs,
    {
        self.secs
    }

    /// The milliseconds beyond the whole seconds.
    pub fn subsec_millis(&self) -> (r: u32)
        ensures
            r == self.millis,
    {
        self.millis
    }
}


proof fn lemma_decimal3_len(n: nat)
    requires
        n < 1000,
    ensures
        decimal3(n).len() == 3,
{
    if n >= 100 {
        assert(decimal(n / 10).len() == 2) by {
            assert(decimal((n / 10) / 10).len() == 1);
        }
    } else if n >= 10 {
        assert(decimal(n / 10).len() == 1);
    }
}

proof fn lemma_hms(secs: nat)
    ensures
        (secs / 3600) * 3600 + ((secs % 3600) / 60) * 60 + secs % 60 == secs,
{
    lemma_fundamental_div_mod(secs as int, 3600);
    lemma_fundamental_div_mod((secs % 3600) as int, 60);
    lemma_mod_mod(secs as int, 60, 60);
    assert(60 * 60 == 3600);
}

proof fn lemma_split_canonical(a: Seq<char>, b: Seq<char>, tail: Seq<char>)
    requires
        index_of(a, ':') < 0,
        index_of(b, ':') < 0,
        index_of(tail, ':') < 0,
    ensures
        split_fields(a + seq![':'] + b + seq![':'] + tail) == Some((a, b, tail)),
{
    let rest = b + seq![':'] + tail;
    let f = a + seq![':'] + b + seq![':'] + tail;
    assert(f =~= a + (seq![':'] + rest));
    crate::text::lemma_index_of_concat(a, seq![':'] + rest, ':');
    assert((seq![':'] + rest)[0] == ':');
    assert(f.subrange(0, a.len() as int) =~= a);
    assert(f.subrange(a.len() as int + 1, f.len() as int) =~= rest);
    crate::text::lemma_index_of_concat(b, seq![':'] + tail, ':');
    assert(rest =~= b + (seq![':'] + tail));
    assert((seq![':'] + tail)[0] == ':');
    assert(rest.subrange(0, b.len() as int) =~= b);
    assert(rest.subrange(b.len() as int + 1, rest.len() as int) =~= tail);
}

proof fn lemma_read_canonical(d: Duration)
    requires
        d.wf(),
    ensures
        read_fields(
            decimal2((d.secs / 3600) as nat),
            decimal2(((d.secs % 3600) / 60) as nat),
            decimal2((d.secs % 60) as nat) + d.fraction_spec(),
        ) == Some(d),
{
    let h = (d.secs / 3600) as nat;
    let m = ((d.secs % 3600) / 60) as nat;
    let s = (d.secs % 60) as nat;
    let c = decimal2(s);
    let t = d.fraction_spec();
    let tail = c + t;
    lemma_decimal_padded(s);
    lemma_unsigned_round_trip(h);
    lemma_unsigned_round_trip(m);
    lemma_unsigned_round_trip(s);
    lemma_unsigned_round_trip(d.millis as nat);
    lemma_decimal_padded(d.millis as nat);
    lemma_decimal3_len(d.millis as nat);
    lemma_digits_have_no(c, '.');
    if d.millis > 0 {
        let e = decimal3(d.millis as nat);
        crate::text::lemma_index_of_concat(c, t, '.');
        assert(t[0] == '.');
        assert(index_of(tail, '.') == c.len());
        assert(tail.subrange(0, c.len() as int) =~= c);
        assert(tail.subrange(c.len() as int + 1, tail.len() as int) =~= e);
    } else {
        assert(tail =~= c);
    }
    lemma_hms(d.secs as nat);
}

/// Reading the canonical text of a well-formed duration gives the duration
/// back.
pub proof fn lemma_parse_format(d: Duration)
    requires
        d.wf(),
    ensures
        parse_duration(d.format_spec()) == Some(d),
{
    let h = (d.secs / 3600) as nat;
    let m = ((d.secs % 3600) / 60) as nat;
    let s = (d.secs % 60) as nat;
    let a = decimal2(h);
    let b = decimal2(m);
    let c = decimal2(s);
    let t = d.fraction_spec();
    let f = d.format_spec();
    lemma_decimal_padded(h);
    lemma_decimal_padded(m);
    lemma_decimal_padded(s);
    lemma_decimal_padded(d.millis as nat);
    lemma_digits_have_no(a, ':');
    lemma_digits_have_no(b, ':');
    lemma_digits_have_no(c, ':');
    lemma_digits_have_no(decimal3(d.millis as nat), ':');
    if d.millis > 0 {
        assert(seq!['.'].drop_first() =~= Seq::<char>::empty());
        assert(index_of(Seq::<char>::empty(), ':') == -1);
        assert(seq!['.'][0] == '.');
        assert(index_of(seq!['.'], ':') < 0);
        crate::text::lemma_index_of_concat(seq!['.'], decimal3(d.millis as nat), ':');
        assert(t =~= seq!['.'] + decimal3(d.millis as nat));
    }
    crate::text::lemma_index_of_concat(c, t, ':');
    assert(f =~= a + seq![':'] + b + seq![':'] + (c + t));
    assert(is_digit(f[0]));
    assert(is_digit(f.last())) by {
        if d.millis > 0 {
            assert(f.last() == decimal3(d.millis as nat).last());
        } else {
            assert(f.last() == c.last());
        }
    }
    crate::text::lemma_trim_digits_ends(f);
    lemma_split_canonical(a, b, c + t);
    lemma_read_canonical(d);
}

/// The canonical text starts and ends with a digit and holds only digits, `:`
/// and `.`.
pub proof fn lemma_format_shape(d: Duration)
    ensures
        d.format_spec().len() > 0,
        is_digit(d.format_spec()[0]),
        is_digit(d.format_spec().last()),
        forall|i: int|
            0 <= i < d.format_spec().len() ==> is_digit(#[trigger] d.format_spec()[i])
                || d.format_spec()[i] == ':' || d.format_spec()[i] == '.',
{
    let h = (d.secs / 3600) as nat;
    let m = ((d.secs % 3600) / 60) as nat;
    let s = (d.secs % 60) as nat;
    lemma_decimal_padded(h);
    lemma_decimal_padded(m);
    lemma_decimal_padded(s);
    lemma_decimal_padded(d.millis as nat);
    let f = d.format_spec();
    if d.millis > 0 {
        assert(f.last() == decimal3(d.millis as nat).last());
    } else {
        assert(f.last() == decimal2(s).last());
    }
}
} // verus!
