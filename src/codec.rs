//! The elements of the model and what they share: reading one from tokens,
//! writing one as text, and the values of attributes and text elements.
use vstd::prelude::*;
use crate::error::VastParseError;
use crate::duration::{Duration, parse_duration};
use crate::text::{parse_i32, parse_i32_spec, signed_decimal, write_signed, str_eq};
use crate::xml::{DecodeError, TokenKind, Tokens, xml_tokens};
use crate::reader::{
    read_text, read_till_element_start, find_attribute, is_close_end, lemma_attrs_end_bounds,
};
use crate::writer::{
    attribute, text_element, start_tag, end_tag, write_attribute, write_text_element, write_start,
    write_open_end, write_end,
};

verus! {

/// A type of the model that stands for one XML element.
pub trait XmlElement: Sized {
    /// The element's tag.
    spec fn tag() -> Seq<char>;

    /// Whether the element takes an attribute of this name.
    spec fn knows(key: Seq<char>) -> bool;

    /// The attribute fields of the value are those that the attributes among
    /// tokens `s` to `e` give.
    spec fn attrs_read(&self, t: &Tokens, s: int, e: int) -> bool;

    /// The content of the value is what tokens `e` up to `q` give: its text,
    /// its verbatim content, or its child elements, each read from within
    /// those tokens, repeated ones in their order.
    spec fn content_read(&self, t: &Tokens, e: int, q: int) -> bool;

    /// A condition on the tokens under which reading from `pos` succeeds
    /// (`false` where the element states none).
    spec fn read_ok(t: &Tokens, pos: int) -> bool;

    /// A condition on the tokens under which reading from `pos` fails.
    spec fn read_refused(t: &Tokens, pos: int) -> bool;

    /// The text that `write` produces for the value.
    spec fn xml_spec(&self) -> Seq<char>;

    /// Reads the next element of this type from token `pos` on, passing over
    /// markup and other elements before it; the position after it. What was
    /// read is the first start tag of this element that `till_start` finds, whose attributes all have names
    /// that it takes and give the value's attribute fields, and content up
    /// to that position that gives the value's content.
    fn read(t: &Tokens, pos: usize) -> (r: Result<(Self, usize), DecodeError>)
        requires
            pos <= t.len(),
        ensures
            r matches Ok((v, q)) ==> pos < q <= t.len() && exists|s: int, e: int|
                pos <= s && e < q && #[trigger] t.start_tag(s, e, Self::tag()) && t.till_start(
                    pos as int,
                    Self::tag(),
                ) == Some(s + 1) && (forall|i: int|
                    s < i < e ==> Self::knows(#[trigger] t.key(i))) && v.attrs_read(t, s, e)
                    && v.content_read(t, e, q as int),
            Self::read_ok(t, pos as int) ==> r is Ok,
            Self::read_refused(t, pos as int) ==> r is Err,
    ;

    /// Appends the element's text.
    fn write(&self, out: &mut String)
        ensures
            final(out)@ == old(out)@ + self.xml_spec(),
    ;
}

/// Appending in two steps is appending the two parts at once.
pub proof fn lemma_append(a: Seq<char>, b: Seq<char>, c: Seq<char>)
    ensures
        (a + b) + c == a + (b + c),
{
    assert((a + b) + c =~= a + (b + c));
}

/// `v` was read from tokens `lo` up to `hi`: from a start tag of its element,
/// whose attributes it takes and gave `v`'s attribute fields, and content that
/// gave its text.
pub open spec fn read_within<T: XmlElement>(t: Tokens, v: T, lo: int, hi: int) -> bool {
    exists|s: int, e: int, q: int|
        #![trigger t.start_tag(s, e, T::tag()), v.content_read(&t, e, q)]
        lo <= s && e < q <= hi && t.start_tag(s, e, T::tag()) && (forall|i: int|
            s < i < e ==> T::knows(#[trigger] t.key(i))) && v.attrs_read(&t, s, e) && v.content_read(
            &t,
            e,
            q,
        )
}

/// `r` is what decoding the tokens `t` from their start gives, as far as
/// `XmlElement::read` states it: success where `read_ok` holds, failure where
/// `read_refused` holds, and a value read from the first element of its type.
pub open spec fn decoded_from<T: XmlElement>(t: Tokens, r: Result<T, DecodeError>) -> bool {
    &&& T::read_ok(&t, 0) ==> r is Ok
    &&& T::read_refused(&t, 0) ==> r is Err
    &&& r is Ok ==> read_first(t, r->Ok_0, 0)
}

/// `v` was read from the first element of its type that `till_start` finds
/// from token `pos`, as `XmlElement::read` says.
pub open spec fn read_first<T: XmlElement>(t: Tokens, v: T, pos: int) -> bool {
    exists|s: int, e: int, q: int|
        #![trigger t.start_tag(s, e, T::tag()), v.content_read(&t, e, q)]
        pos <= s && e < q <= t.len() && t.start_tag(s, e, T::tag()) && t.till_start(pos, T::tag())
            == Some(s + 1) && (forall|i: int| s < i < e ==> T::knows(#[trigger] t.key(i)))
            && v.attrs_read(&t, s, e) && v.content_read(&t, e, q)
}

/// Where the gap before child window `k` begins: at `a` for the first, at
/// the end of the window before for the others.
pub open spec fn prev_end(ws: Seq<(int, int, int)>, a: int, k: int) -> int {
    if k == 0 {
        a
    } else {
        ws[k - 1].1
    }
}

/// `ws` splits the content tokens from `a` up to `b` into child elements:
/// each window `(start, end, field)` begins with an element start, windows
/// follow each other in order, and every token between them, or after the
/// last, is text, CDATA or markup. `field` says which of `nf` fields the
/// child went to (`-1`: passed over).
#[verifier::opaque]
pub open spec fn children_cover(t: Tokens, ws: Seq<(int, int, int)>, a: int, b: int, nf: int) -> bool {
    &&& forall|k: int|
        0 <= k < ws.len() ==> -1 <= (#[trigger] ws[k]).2 < nf && prev_end(ws, a, k) <= ws[k].0 < ws[k].1 <= b && t.kind(
            ws[k].0,
        ) == TokenKind::ElementStart && (forall|i: int|
            prev_end(ws, a, k) <= i < ws[k].0 ==> #[trigger] t.skippable(i))
    &&& prev_end(ws, a, ws.len() as int) <= b
    &&& forall|i: int| prev_end(ws, a, ws.len() as int) <= i < b ==> #[trigger] t.skippable(i)
}

/// How many windows of `ws` went to field `j`.
pub open spec fn count_of(ws: Seq<(int, int, int)>, j: int) -> nat
    decreases ws.len(),
{
    if ws.len() == 0 {
        0
    } else {
        count_of(ws.drop_last(), j) + if ws.last().2 == j {
            1nat
        } else {
            0nat
        }
    }
}

/// The content of an element whose start tag ends at token `e` and that
/// ends before token `q`: up to its closing tag, or nothing after `/>`.
pub open spec fn content_end(e: int, q: int) -> int {
    if q - 1 > e {
        q - 1
    } else {
        e + 1
    }
}

/// A child read right after the windows keeps the split.
pub proof fn lemma_cover_push(t: Tokens, ws: Seq<(int, int, int)>, a: int, b: int, w: (int, int, int), nf: int)
    requires
        children_cover(t, ws, a, b, nf),
        -1 <= w.2 < nf,
        prev_end(ws, a, ws.len() as int) == b,
        b <= w.0 < w.1,
        t.kind(w.0) == TokenKind::ElementStart,
        forall|i: int| b <= i < w.0 ==> #[trigger] t.skippable(i),
    ensures
        children_cover(t, ws.push(w), a, w.1, nf),
        prev_end(ws.push(w), a, ws.len() as int + 1) == w.1,
        forall|j: int| #[trigger] count_of(ws.push(w), j) == count_of(ws, j) + if w.2 == j {
            1nat
        } else {
            0nat
        },
{
    reveal(children_cover);
    let ws2 = ws.push(w);
    assert(ws2.drop_last() =~= ws);
    assert forall|k: int| 0 <= k < ws2.len() implies -1 <= (#[trigger] ws2[k]).2 < nf && prev_end(ws2, a, k) <= ws2[k].0
        < ws2[k].1 <= w.1 && t.kind(ws2[k].0) == TokenKind::ElementStart && (forall|i: int|
        prev_end(ws2, a, k) <= i < ws2[k].0 ==> #[trigger] t.skippable(i)) by {
        if k < ws.len() {
            assert(ws2[k] == ws[k]);
            assert(prev_end(ws2, a, k) == prev_end(ws, a, k));
        }
    }
}

/// Text, CDATA or markup after the windows keeps the split.
pub proof fn lemma_cover_extend(t: Tokens, ws: Seq<(int, int, int)>, a: int, b: int, b2: int, nf: int)
    requires
        children_cover(t, ws, a, b, nf),
        prev_end(ws, a, ws.len() as int) == b,
        b <= b2,
        forall|i: int| b <= i < b2 ==> #[trigger] t.skippable(i),
    ensures
        children_cover(t, ws, a, b2, nf),
{
    reveal(children_cover);
}

/// No elements were read from no part of the tokens.
pub proof fn lemma_ends_empty<T: XmlElement>(t: Tokens, s: Seq<T>, lo: int)
    requires
        s.len() == 0,
    ensures
        ends_fit(t, s, lo, Seq::<int>::empty()),
{
    reveal(ends_fit);
}

/// No texts were read from no part of the tokens.
pub proof fn lemma_text_ends_empty(t: Tokens, tag: Seq<char>, s: Seq<String>, lo: int)
    requires
        s.len() == 0,
    ensures
        text_ends_fit(t, tag, s, lo, Seq::<int>::empty()),
{
    reveal(text_ends_fit);
}

/// No windows split an empty content.
pub proof fn lemma_cover_empty(t: Tokens, a: int, nf: int)
    ensures
        children_cover(t, Seq::<(int, int, int)>::empty(), a, a, nf),
{
    reveal(children_cover);
}

/// Where the part of the tokens that element `k` was read from may begin:
/// after `lo` for the first, after the end of the one before for the others.
pub open spec fn part_start(ends: Seq<int>, lo: int, k: int) -> int {
    if k == 0 {
        lo
    } else {
        ends[k - 1]
    }
}

/// `ends` marks the end of the part of the tokens that each element of `s`
/// was read from, in order.
#[verifier::opaque]
pub open spec fn ends_fit<T: XmlElement>(t: Tokens, s: Seq<T>, lo: int, ends: Seq<int>) -> bool {
    &&& ends.len() == s.len()
    &&& forall|k: int|
        0 <= k < s.len() ==> read_within(t, #[trigger] s[k], part_start(ends, lo, k), ends[k])
}

/// The elements of `s` were read in their order from the tokens after `lo`:
/// each one from a part of the tokens that begins after the end of the part
/// of the one before.
pub open spec fn read_in_order<T: XmlElement>(t: Tokens, s: Seq<T>, lo: int) -> bool {
    exists|ends: Seq<int>| #[trigger] ends_fit(t, s, lo, ends)
}

/// `ends` marks the end of the part of the tokens that each string of `s`
/// was read from, in order.
#[verifier::opaque]
pub open spec fn text_ends_fit(t: Tokens, tag: Seq<char>, s: Seq<String>, lo: int, ends: Seq<int>) -> bool {
    &&& ends.len() == s.len()
    &&& forall|k: int|
        0 <= k < s.len() ==> text_within(t, tag, (#[trigger] s[k])@, part_start(ends, lo, k), ends[k])
}

/// The strings of `s` are the texts of elements named `tag`, in their order
/// among the tokens after `lo`.
pub open spec fn texts_in_order(t: Tokens, tag: Seq<char>, s: Seq<String>, lo: int) -> bool {
    exists|ends: Seq<int>| #[trigger] text_ends_fit(t, tag, s, lo, ends)
}

/// What was read from a part of the tokens was read from any part that
/// holds it.
pub proof fn lemma_read_within_widen<T: XmlElement>(t: Tokens, v: T, lo: int, hi: int, lo2: int, hi2: int)
    requires
        read_within(t, v, lo, hi),
        lo2 <= lo,
        hi <= hi2 <= t.len(),
    ensures
        read_within(t, v, lo2, hi2),
{
}

/// An element read after the end of the last one keeps the order.
pub proof fn lemma_ends_push<T: XmlElement>(t: Tokens, s: Seq<T>, v: T, lo: int, ends: Seq<int>, end: int)
    requires
        ends_fit(t, s, lo, ends),
        read_within(t, v, part_start(ends, lo, s.len() as int), end),
    ensures
        ends_fit(t, s.push(v), lo, ends.push(end)),
        ends.len() == s.len(),
{
    reveal(ends_fit);
    assert forall|k: int| 0 <= k < s.push(v).len() implies read_within(
        t,
        #[trigger] s.push(v)[k],
        part_start(ends.push(end), lo, k),
        ends.push(end)[k],
    ) by {
        if k < s.len() {
            assert(s.push(v)[k] == s[k]);
        }
    }
}

/// A text read after the end of the last one keeps the order.
pub proof fn lemma_text_ends_push(t: Tokens, tag: Seq<char>, s: Seq<String>, v: String, lo: int, ends: Seq<int>, end: int)
    requires
        text_ends_fit(t, tag, s, lo, ends),
        text_within(t, tag, v@, part_start(ends, lo, s.len() as int), end),
    ensures
        text_ends_fit(t, tag, s.push(v), lo, ends.push(end)),
        ends.len() == s.len(),
{
    reveal(text_ends_fit);
    assert forall|k: int| 0 <= k < s.push(v).len() implies text_within(
        t,
        tag,
        (#[trigger] s.push(v)[k])@,
        part_start(ends.push(end), lo, k),
        ends.push(end)[k],
    ) by {
        if k < s.len() {
            assert(s.push(v)[k] == s[k]);
        }
    }
}

/// Among tokens `lo` up to `hi` there is an element named `tag` whose text
/// content is `v`.
pub open spec fn text_within(t: Tokens, tag: Seq<char>, v: Seq<char>, lo: int, hi: int) -> bool {
    exists|a: int, b: int|
        #![trigger t.starts(a, tag), t.text_of(a + 1, b)]
        lo <= a < b <= hi && t.starts(a, tag) && t.text_of(a + 1, b) == v
}

/// Among tokens `lo` up to `hi` there is an element named `tag` whose text
/// content reads as the integer `v`.
pub open spec fn int_within(t: Tokens, tag: Seq<char>, v: i32, lo: int, hi: int) -> bool {
    exists|a: int, b: int|
        #![trigger t.starts(a, tag), t.text_of(a + 1, b)]
        lo <= a < b <= hi && t.starts(a, tag) && parse_i32_spec(t.text_of(a + 1, b)) == Some(v)
}

/// Among tokens `lo` up to `hi` there is a `<Duration>` element whose text
/// content reads as `d`.
pub open spec fn duration_within(t: Tokens, d: Duration, lo: int, hi: int) -> bool {
    exists|a: int, b: int|
        #![trigger t.starts(a, "Duration"@), t.text_of(a + 1, b)]
        lo <= a < b <= hi && t.starts(a, "Duration"@) && parse_duration(t.text_of(a + 1, b)) == Some(d)
}

/// Decodes a whole document, or one element, from XML text: the first element
/// of type `T` among the tokens of the text, read as `XmlElement::read` says.
pub fn from_str<T: XmlElement>(s: &str) -> (r: Result<T, DecodeError>)
    ensures
        exists|t: Tokens|
            #![trigger t.views()]
            t.views() == xml_tokens(s@).0 && t.failure_view() == xml_tokens(s@).1 && decoded_from(
                t,
                r,
            ),
{
    let t = Tokens::tokenize(s);
    let r = match T::read(&t, 0) {
        Ok((v, _)) => Ok(v),
        Err(e) => Err(e),
    };
    assert(t.views() == xml_tokens(s@).0 && t.failure_view() == xml_tokens(s@).1 && decoded_from(t, r));
    r
}

/// Encodes a value as XML text; writing into a string does not fail.
pub fn to_string<T: XmlElement>(value: &T) -> (r: Result<String, DecodeError>)
    ensures
        r matches Ok(s) && s@ == value.xml_spec(),
{
    let mut out = String::new();
    value.write(&mut out);
    assert(out@ =~= value.xml_spec());
    Ok(out)
}

/// The texts of a sequence of elements, one after another.
pub open spec fn seq_xml<T: XmlElement>(s: Seq<T>) -> Seq<char>
    decreases s.len(),
{
    if s.len() == 0 {
        Seq::<char>::empty()
    } else {
        seq_xml(s.drop_last()) + s.last().xml_spec()
    }
}

/// The text of an element that may be absent.
pub open spec fn opt_xml<T: XmlElement>(o: Option<T>) -> Seq<char> {
    match o {
        Some(v) => v.xml_spec(),
        None => Seq::<char>::empty(),
    }
}

/// A text element for each string, one after another.
pub open spec fn seq_text(tag: Seq<char>, s: Seq<String>, in_cdata: bool) -> Seq<char>
    decreases s.len(),
{
    if s.len() == 0 {
        Seq::<char>::empty()
    } else {
        seq_text(tag, s.drop_last(), in_cdata) + text_element(tag, s.last()@, in_cdata)
    }
}

/// A text element for a string that may be absent.
pub open spec fn opt_text(tag: Seq<char>, o: Option<String>, in_cdata: bool) -> Seq<char> {
    match o {
        Some(v) => text_element(tag, v@, in_cdata),
        None => Seq::<char>::empty(),
    }
}

/// An attribute whose value may be absent.
pub open spec fn opt_attribute(key: Seq<char>, o: Option<Seq<char>>) -> Seq<char> {
    match o {
        Some(v) => attribute(key, v),
        None => Seq::<char>::empty(),
    }
}

pub open spec fn opt_view(o: Option<String>) -> Option<Seq<char>> {
    match o {
        Some(v) => Some(v@),
        None => None,
    }
}

pub open spec fn opt_i32_text(o: Option<i32>) -> Option<Seq<char>> {
    match o {
        Some(v) => Some(signed_decimal(v as int)),
        None => None,
    }
}

/// How a boolean is written.
pub open spec fn bool_text(b: bool) -> Seq<char> {
    if b {
        "true"@
    } else {
        "false"@
    }
}

pub open spec fn opt_bool_text(o: Option<bool>) -> Option<Seq<char>> {
    match o {
        Some(v) => Some(bool_text(v)),
        None => None,
    }
}

/// The words read as a boolean: `t`, `true`, `y`, `yes`, `on`, `1` and their
/// opposites `f`, `false`, `n`, `no`, `off`, `0`.
pub open spec fn parse_bool_spec(s: Seq<char>) -> Option<bool> {
    if s == "t"@ || s == "true"@ || s == "y"@ || s == "yes"@ || s == "on"@ || s == "1"@ {
        Some(true)
    } else if s == "f"@ || s == "false"@ || s == "n"@ || s == "no"@ || s == "off"@ || s == "0"@ {
        Some(false)
    } else {
        None
    }
}

/// Reads a boolean attribute or text.
pub fn parse_bool(s: &str) -> (r: Result<bool, DecodeError>)
    ensures
        r matches Ok(b) ==> parse_bool_spec(s@) == Some(b),
        r is Err ==> parse_bool_spec(s@) is None,
{
    if str_eq(s, "t") || str_eq(s, "true") || str_eq(s, "y") || str_eq(s, "yes") || str_eq(s, "on")
        || str_eq(s, "1") {
        Ok(true)
    } else if str_eq(s, "f") || str_eq(s, "false") || str_eq(s, "n") || str_eq(s, "no") || str_eq(
        s,
        "off",
    ) || str_eq(s, "0") {
        Ok(false)
    } else {
        Err(DecodeError::FromStr(VastParseError::quoting("boolean parsing error: ", s)))
    }
}

/// Reads an integer attribute or text.
pub fn parse_int(s: &str) -> (r: Result<i32, DecodeError>)
    ensures
        r matches Ok(v) ==> crate::text::parse_i32_spec(s@) == Some(v),
        r is Err ==> crate::text::parse_i32_spec(s@) is None,
{
    match parse_i32(s) {
        Some(v) => Ok(v),
        None => Err(DecodeError::FromStr(VastParseError::quoting("integer parsing error: ", s))),
    }
}

/// A scalar codec's error, as an error of decoding.
pub fn scalar_error(e: VastParseError) -> (r: DecodeError)
    ensures
        r == DecodeError::FromStr(e),
{
    DecodeError::FromStr(e)
}

pub fn missing_field(name: &str, field: &str) -> (r: DecodeError) {
    DecodeError::MissingField { name: String::from_str(name), field: String::from_str(field) }
}

pub fn unknown_field(name: &str, field: String) -> (r: DecodeError) {
    DecodeError::UnknownField { name: String::from_str(name), field }
}

pub fn duplicate_attribute(name: &str) -> (r: DecodeError) {
    DecodeError::DuplicateAttribute { name: String::from_str(name) }
}

pub fn duplicate_element(name: &str) -> (r: DecodeError) {
    DecodeError::DuplicateElement { name: String::from_str(name) }
}

/// Reads the text of a child element whose start token is at `pos`.
pub fn read_text_child(t: &Tokens, pos: usize, tag: &str) -> (r: Result<(String, usize), DecodeError>)
    requires
        pos < t.len(),
    ensures
        r matches Ok((_, q)) ==> pos < q <= t.len(),
        r matches Ok((x, q)) ==> x@ == t.text_of(pos + 1, q as int),
{
    let n = t.items.len();
    assert(pos + 1 <= n);
    read_text(t, pos + 1, tag)
}

/// Appends each element in turn.
pub fn write_all<T: XmlElement>(out: &mut String, v: &Vec<T>)
    ensures
        final(out)@ == old(out)@ + seq_xml(v@),
{
    let mut i: usize = 0;
    let ghost before = out@;
    while i < v.len()
        invariant
            i <= v@.len(),
            out@ == before + seq_xml(v@.take(i as int)),
            before == old(out)@,
        decreases v@.len() - i,
    {
        v[i].write(out);
        assert(v@.take(i + 1).drop_last() =~= v@.take(i as int));
        assert(out@ =~= before + seq_xml(v@.take(i + 1)));
        i = i + 1;
    }
    assert(v@.take(v@.len() as int) =~= v@);
}

/// Appends the element where there is one.
pub fn write_opt<T: XmlElement>(out: &mut String, v: &Option<T>)
    ensures
        final(out)@ == old(out)@ + opt_xml(*v),
{
    match v {
        Some(x) => x.write(out),
        None => {},
    }
    assert(final(out)@ =~= old(out)@ + opt_xml(*v));
}

/// Appends a text element for each string in turn.
pub fn write_text_elements(out: &mut String, tag: &str, v: &Vec<String>, in_cdata: bool)
    ensures
        final(out)@ == old(out)@ + seq_text(tag@, v@, in_cdata),
{
    let mut i: usize = 0;
    let ghost before = out@;
    while i < v.len()
        invariant
            i <= v@.len(),
            out@ == before + seq_text(tag@, v@.take(i as int), in_cdata),
            before == old(out)@,
        decreases v@.len() - i,
    {
        write_text_element(out, tag, v[i].as_str(), in_cdata);
        assert(v@.take(i + 1).drop_last() =~= v@.take(i as int));
        assert(out@ =~= before + seq_text(tag@, v@.take(i + 1), in_cdata));
        i = i + 1;
    }
    assert(v@.take(v@.len() as int) =~= v@);
}

/// Appends a text element where there is a string.
pub fn write_opt_text(out: &mut String, tag: &str, v: &Option<String>, in_cdata: bool)
    ensures
        final(out)@ == old(out)@ + opt_text(tag@, *v, in_cdata),
{
    match v {
        Some(x) => write_text_element(out, tag, x.as_str(), in_cdata),
        None => {},
    }
    assert(final(out)@ =~= old(out)@ + opt_text(tag@, *v, in_cdata));
}

/// Appends an attribute where there is a value.
pub fn write_opt_attribute(out: &mut String, key: &str, v: &Option<String>)
    ensures
        final(out)@ == old(out)@ + opt_attribute(key@, opt_view(*v)),
{
    match v {
        Some(x) => write_attribute(out, key, x.as_str()),
        None => {},
    }
    assert(final(out)@ =~= old(out)@ + opt_attribute(key@, opt_view(*v)));
}

/// Appends an integer attribute.
pub fn write_int_attribute(out: &mut String, key: &str, v: i32)
    ensures
        final(out)@ == old(out)@ + attribute(key@, signed_decimal(v as int)),
{
    let mut s = String::new();
    write_signed(&mut s, v);
    assert(s@ =~= signed_decimal(v as int));
    write_attribute(out, key, s.as_str());
}

/// Appends an integer attribute where there is a value.
pub fn write_opt_int_attribute(out: &mut String, key: &str, v: Option<i32>)
    ensures
        final(out)@ == old(out)@ + opt_attribute(key@, opt_i32_text(v)),
{
    match v {
        Some(x) => write_int_attribute(out, key, x),
        None => {},
    }
    assert(final(out)@ =~= old(out)@ + opt_attribute(key@, opt_i32_text(v)));
}

/// The word for a boolean.
pub fn bool_str(b: bool) -> (r: &'static str)
    ensures
        r@ == bool_text(b),
{
    if b {
        "true"
    } else {
        "false"
    }
}

/// Appends a boolean attribute where there is a value.
pub fn write_opt_bool_attribute(out: &mut String, key: &str, v: Option<bool>)
    ensures
        final(out)@ == old(out)@ + opt_attribute(key@, opt_bool_text(v)),
{
    match v {
        Some(x) => write_attribute(out, key, bool_str(x)),
        None => {},
    }
    assert(final(out)@ =~= old(out)@ + opt_attribute(key@, opt_bool_text(v)));
}


/// A `<Duration>` child: nothing where there is none or it is zero, else its
/// text.
pub open spec fn duration_child(o: Option<Duration>) -> Seq<char> {
    match o {
        Some(d) => if d.total_millis() == 0 {
            Seq::<char>::empty()
        } else {
            start_tag("Duration"@) + seq!['>'] + d.format_spec() + end_tag("Duration"@)
        },
        None => Seq::<char>::empty(),
    }
}

/// Appends a `<Duration>` child, which a zero duration leaves out.
pub fn write_duration_child(out: &mut String, v: &Option<Duration>)
    ensures
        final(out)@ == old(out)@ + duration_child(*v),
{
    match v {
        Some(d) => {
            if !d.is_zero() {
                write_start(out, "Duration");
                write_open_end(out);
                d.write_to(out);
                write_end(out, "Duration");
            }
        },
        None => {},
    }
    assert(final(out)@ =~= old(out)@ + duration_child(*v));
}

/// Reads the text of a `<Duration>` child whose start token is at `pos`.
pub fn read_duration_child(t: &Tokens, pos: usize) -> (r: Result<(Duration, usize), DecodeError>)
    requires
        pos < t.len(),
    ensures
        r matches Ok((_, q)) ==> pos < q <= t.len(),
        r matches Ok((d, q)) ==> parse_duration(t.text_of(pos + 1, q as int)) == Some(d),
{
    let (s, q) = read_text_child(t, pos, "Duration")?;
    match Duration::from_str(s.as_str()) {
        Ok(d) => Ok((d, q)),
        Err(e) => Err(scalar_error(e)),
    }
}

/// An integer text element where there is a value.
pub open spec fn opt_int_text(tag: Seq<char>, o: Option<i32>) -> Seq<char> {
    match o {
        Some(v) => text_element(tag, signed_decimal(v as int), false),
        None => Seq::<char>::empty(),
    }
}

/// Appends an integer text element where there is a value.
pub fn write_opt_int_text(out: &mut String, tag: &str, v: Option<i32>)
    ensures
        final(out)@ == old(out)@ + opt_int_text(tag@, v),
{
    match v {
        Some(x) => {
            let mut s = String::new();
            write_signed(&mut s, x);
            assert(s@ =~= signed_decimal(x as int));
            write_text_element(out, tag, s.as_str(), false);
        },
        None => {},
    }
    assert(final(out)@ =~= old(out)@ + opt_int_text(tag@, v));
}

impl XmlElement for Duration {
    open spec fn tag() -> Seq<char> {
        "Duration"@
    }

    /// Attributes of `<Duration>` are passed over.
    open spec fn knows(key: Seq<char>) -> bool {
        true
    }

    open spec fn attrs_read(&self, t: &Tokens, s: int, e: int) -> bool {
        true
    }

    open spec fn content_read(&self, t: &Tokens, e: int, q: int) -> bool {
        parse_duration(t.text_of(e, q)) == Some(*self)
    }

    open spec fn read_ok(t: &Tokens, pos: int) -> bool {
        false
    }

    open spec fn read_refused(t: &Tokens, pos: int) -> bool {
        t.start_malformed(pos, "Duration"@)
    }

    open spec fn xml_spec(&self) -> Seq<char> {
        duration_child(Some(*self))
    }

    /// Reads `<Duration>HH:MM:SS[.mmm]</Duration>`.
    fn read(t: &Tokens, pos: usize) -> (r: Result<(Self, usize), DecodeError>) {
        let n = t.items.len();
        let start = read_till_element_start(t, pos, "Duration")?;
        let mut p = start;
        loop
            invariant
                n == t.len(),
                start <= p <= n,
                start == n || (pos < start && t.starts(start - 1, "Duration"@)),
                forall|i: int| start <= i < p ==> t.kind(i) == TokenKind::Attribute,
                t.till_start(pos as int, "Duration"@) == Some(start as int),
                t.attrs_end(start as int) == t.attrs_end(p as int),
                forall|i: int| start <= i < p ==> #[trigger] t.attr_readable(i),
            ensures
                start <= p < n,
                pos < start && t.starts(start - 1, "Duration"@),
                forall|i: int| start <= i < p ==> t.kind(i) == TokenKind::Attribute,
                t.attrs_end(start as int) == p,
                forall|i: int| start <= i < p ==> #[trigger] t.attr_readable(i),
                t.kind(p as int) == TokenKind::ElementEnd && !is_close_end(t.span(p as int)),
            decreases n - p,
        {
            proof {
                lemma_attrs_end_bounds(t, p as int);
            }
            let (found, q) = find_attribute(t, p)?;
            match found {
                None => {
                    break;
                },
                Some(_) => {
                    p = q;
                },
            }
        }
        let (s, q) = read_text(t, p, "Duration")?;
        assert(t.start_tag(start - 1, p as int, "Duration"@));
        assert(t.till_start(pos as int, "Duration"@) == Some(start as int));
        match Duration::from_str(s.as_str()) {
            Ok(d) => Ok((d, q)),
            Err(e) => Err(scalar_error(e)),
        }
    }

    /// Writes `<Duration>` with the canonical text; a zero duration writes
    /// nothing.
    fn write(&self, out: &mut String) {
        write_duration_child(out, &Some(*self));
    }
}
} // verus!
