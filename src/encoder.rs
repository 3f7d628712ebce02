//! The document encoder: a fragment becomes a header of byte offsets, the
//! opening scaffold, the fragment itself and the closing scaffold, followed by
//! a single terminating zero byte.
use vstd::prelude::*;
use crate::error::Error;
use vstd::string::StringSliceAdditionalSpecFns;
use vstd::utf8::{is_ascii_chars, is_ascii_chars_encode_utf8};

verus! {

/// Number of decimal digits in every numeric header field.
pub const FIELD_WIDTH: usize = 50;

/// The first header line.
pub const VERSION_LINE: &'static str = "Version:0.9\n";
/// Names of the six offset fields, in the order in which the header lists them.
pub const START_HTML_LABEL: &'static str = "StartHTML:";
pub const END_HTML_LABEL: &'static str = "EndHTML:";
pub const START_FRAGMENT_LABEL: &'static str = "StartFragment:";
pub const END_FRAGMENT_LABEL: &'static str = "EndFragment:";
pub const START_SELECTION_LABEL: &'static str = "StartSelection:";
pub const END_SELECTION_LABEL: &'static str = "EndSelection:";
/// The HTML that stands between the header and the fragment.
pub const OPENING_SCAFFOLD: &'static str = "<!DOCTYPE>\n<HTML>\n<HEAD>\n</HEAD>\n<BODY>\n<!-- StartFragment -->\n";
/// The HTML that follows the fragment.
pub const CLOSING_SCAFFOLD: &'static str = "\n<!-- EndFragment -->\n</BODY>\n</HTML>";

/// Byte offsets of a document, as its header states them. Offsets count from
/// the first byte of the document; `end_fragment` and `end_html` are the
/// offsets of the last byte of the fragment and of the document (the
/// terminating zero byte excluded).
#[derive(Debug, Clone, Copy, PartialEq, Eq, Structural)]
pub struct HtmlOffsets {
    pub start_html: usize,
    pub end_html: usize,
    pub start_fragment: usize,
    pub end_fragment: usize,
    pub start_selection: usize,
    pub end_selection: usize,
}

/// An encoded document together with the offsets its header states.
#[derive(Debug)]
pub struct HtmlDocument {
    pub offsets: HtmlOffsets,
    /// The whole document, zero byte included.
    pub bytes: Vec<u8>,
}

/// The field names, in header order.
pub open spec fn field_labels() -> Seq<Seq<u8>> {
    seq![
        START_HTML_LABEL.spec_bytes(),
        END_HTML_LABEL.spec_bytes(),
        START_FRAGMENT_LABEL.spec_bytes(),
        END_FRAGMENT_LABEL.spec_bytes(),
        START_SELECTION_LABEL.spec_bytes(),
        END_SELECTION_LABEL.spec_bytes(),
    ]
}

impl HtmlOffsets {
    /// The six values, in header order.
    pub open spec fn values(self) -> Seq<nat> {
        seq![
            self.start_html as nat,
            self.end_html as nat,
            self.start_fragment as nat,
            self.end_fragment as nat,
            self.start_selection as nat,
            self.end_selection as nat,
        ]
    }

    /// These are the offsets of the document built around a fragment of
    /// `len` bytes: the fragment starts right after the header and the opening
    /// scaffold, the whole fragment is selected, and the document ends with
    /// the closing scaffold.
    pub open spec fn describes(self, len: nat) -> bool {
        &&& self.start_html == header_length()
        &&& self.start_fragment == header_length() + OPENING_SCAFFOLD.spec_bytes().len()
        &&& self.end_fragment == self.start_fragment + len - 1
        &&& self.end_html == self.end_fragment + CLOSING_SCAFFOLD.spec_bytes().len()
        &&& self.start_selection == self.start_fragment
        &&& self.end_selection == self.end_fragment
    }
}

/// One header line: the field name, the value in `FIELD_WIDTH` digits, a newline.
pub open spec fn field_line(label: Seq<u8>, value: nat) -> Seq<u8> {
    label + padded_decimal(value, FIELD_WIDTH as nat) + seq![10u8]
}

/// The field lines for `labels` and `values`, one after the other.
pub open spec fn field_lines(labels: Seq<Seq<u8>>, values: Seq<nat>) -> Seq<u8>
    decreases labels.len(),
{
    if labels.len() == 0 {
        Seq::empty()
    } else {
        field_line(labels[0], values[0]) + field_lines(labels.drop_first(), values.drop_first())
    }
}

/// The header: the version line, then one line per offset field.
pub open spec fn html_header(o: HtmlOffsets) -> Seq<u8> {
    VERSION_LINE.spec_bytes() + field_lines(field_labels(), o.values())
}

/// The byte length of every header, whatever the values in it.
pub open spec fn header_length() -> nat {
    VERSION_LINE.spec_bytes().len() + START_HTML_LABEL.spec_bytes().len()
        + END_HTML_LABEL.spec_bytes().len() + START_FRAGMENT_LABEL.spec_bytes().len()
        + END_FRAGMENT_LABEL.spec_bytes().len() + START_SELECTION_LABEL.spec_bytes().len()
        + END_SELECTION_LABEL.spec_bytes().len() + 6 * (FIELD_WIDTH as nat + 1)
}

/// The bytes a document holds besides its fragment.
pub open spec fn document_overhead() -> nat {
    header_length() + OPENING_SCAFFOLD.spec_bytes().len() + CLOSING_SCAFFOLD.spec_bytes().len() + 1
}

/// The document for `fragment` with header `o`, terminated by a zero byte.
pub open spec fn html_document(fragment: Seq<u8>, o: HtmlOffsets) -> Seq<u8> {
    html_header(o) + OPENING_SCAFFOLD.spec_bytes() + fragment + CLOSING_SCAFFOLD.spec_bytes()
        + seq![0u8]
}

/// Lengths of the fixed texts: every header is 390 bytes and the fragment
/// starts at byte 453.
pub proof fn lemma_text_lengths()
    ensures
        VERSION_LINE.spec_bytes().len() == 12,
        START_HTML_LABEL.spec_bytes().len() == 10,
        END_HTML_LABEL.spec_bytes().len() == 8,
        START_FRAGMENT_LABEL.spec_bytes().len() == 14,
        END_FRAGMENT_LABEL.spec_bytes().len() == 12,
        START_SELECTION_LABEL.spec_bytes().len() == 15,
        END_SELECTION_LABEL.spec_bytes().len() == 13,
        OPENING_SCAFFOLD.spec_bytes().len() == 63,
        CLOSING_SCAFFOLD.spec_bytes().len() == 37,
        header_length() == 390,
        document_overhead() == 491,
{
    reveal_strlit("Version:0.9\n");
    reveal_strlit("StartHTML:");
    reveal_strlit("EndHTML:");
    reveal_strlit("StartFragment:");
    reveal_strlit("EndFragment:");
    reveal_strlit("StartSelection:");
    reveal_strlit("EndSelection:");
    reveal_strlit("<!DOCTYPE>\n<HTML>\n<HEAD>\n</HEAD>\n<BODY>\n<!-- StartFragment -->\n");
    reveal_strlit("\n<!-- EndFragment -->\n</BODY>\n</HTML>");
    lemma_ascii_bytes(VERSION_LINE);
    lemma_ascii_bytes(START_HTML_LABEL);
    lemma_ascii_bytes(END_HTML_LABEL);
    lemma_ascii_bytes(START_FRAGMENT_LABEL);
    lemma_ascii_bytes(END_FRAGMENT_LABEL);
    lemma_ascii_bytes(START_SELECTION_LABEL);
    lemma_ascii_bytes(END_SELECTION_LABEL);
    lemma_ascii_bytes(OPENING_SCAFFOLD);
    lemma_ascii_bytes(CLOSING_SCAFFOLD);
}

/// The ASCII code of a decimal digit.
pub open spec fn digit_byte(d: nat) -> u8
    recommends
        d < 10,
{
    (48 + d) as u8
}

/// `n` in decimal, left-padded with zeros to `width` digits; only the lowest
/// `width` digits are kept.
pub open spec fn padded_decimal(n: nat, width: nat) -> Seq<u8>
    decreases width,
{
    if width == 0 {
        Seq::empty()
    } else {
        padded_decimal(n / 10, (width - 1) as nat).push(digit_byte(n % 10))
    }
}

/// Appends `n` rendered as `width` zero-padded decimal digits.
fn push_padded_decimal(out: &mut Vec<u8>, n: usize, width: usize)
    ensures
        final(out)@ == old(out)@ + padded_decimal(n as nat, width as nat),
    decreases width,
{
    if width > 0 {
        push_padded_decimal(out, n / 10, width - 1);
        let d: usize = n % 10;
        out.push(48u8 + d as u8);
        proof {
            assert(old(out)@ + padded_decimal(n as nat, width as nat) =~= old(out)@
                + padded_decimal((n / 10) as nat, (width - 1) as nat) + seq![digit_byte(d as nat)]);
        }
    } else {
        assert(old(out)@ + padded_decimal(n as nat, 0) =~= old(out)@);
    }
}


/// Appends the bytes of `s`.
fn push_text(out: &mut Vec<u8>, s: &str)
    ensures
        final(out)@ == old(out)@ + s.spec_bytes(),
{
    let b = s.as_bytes();
    let mut i: usize = 0;
    while i < b.len()
        invariant
            i <= b@.len(),
            b@ == s.spec_bytes(),
            out@ == old(out)@ + b@.subrange(0, i as int),
        decreases b@.len() - i,
    {
        out.push(b[i]);
        i = i + 1;
        assert(out@ =~= old(out)@ + b@.subrange(0, i as int));
    }
    assert(b@.subrange(0, i as int) =~= b@);
}

/// An ASCII literal has one byte per character.
proof fn lemma_ascii_bytes(s: &str)
    requires
        is_ascii_chars(s@),
    ensures
        s.spec_bytes().len() == s@.len(),
{
    is_ascii_chars_encode_utf8(s@);
}


/// Appends one header line: `label`, then `value` in `FIELD_WIDTH` digits, then a newline.
fn push_field(out: &mut Vec<u8>, label: &str, value: usize)
    ensures
        final(out)@ == old(out)@ + field_line(label.spec_bytes(), value as nat),
{
    push_text(out, label);
    push_padded_decimal(out, value, FIELD_WIDTH);
    out.push(10u8);
    assert(final(out)@ =~= old(out)@ + field_line(label.spec_bytes(), value as nat));
}

/// The header lines, unfolded one by one.
proof fn lemma_header_unfold(o: HtmlOffsets)
    ensures
        html_header(o) == VERSION_LINE.spec_bytes()
            + field_line(START_HTML_LABEL.spec_bytes(), o.start_html as nat)
            + field_line(END_HTML_LABEL.spec_bytes(), o.end_html as nat)
            + field_line(START_FRAGMENT_LABEL.spec_bytes(), o.start_fragment as nat)
            + field_line(END_FRAGMENT_LABEL.spec_bytes(), o.end_fragment as nat)
            + field_line(START_SELECTION_LABEL.spec_bytes(), o.start_selection as nat)
            + field_line(END_SELECTION_LABEL.spec_bytes(), o.end_selection as nat),
{
    let l0 = field_labels();
    let v0 = o.values();
    let l1 = l0.drop_first();
    let v1 = v0.drop_first();
    let l2 = l1.drop_first();
    let v2 = v1.drop_first();
    let l3 = l2.drop_first();
    let v3 = v2.drop_first();
    let l4 = l3.drop_first();
    let v4 = v3.drop_first();
    let l5 = l4.drop_first();
    let v5 = v4.drop_first();
    let l6 = l5.drop_first();
    let v6 = v5.drop_first();
    assert(l6.len() == 0);
    assert(field_lines(l6, v6) == Seq::<u8>::empty());
    assert(field_lines(l5, v5) == field_line(l5[0], v5[0]) + field_lines(l6, v6));
    assert(field_lines(l4, v4) == field_line(l4[0], v4[0]) + field_lines(l5, v5));
    assert(field_lines(l3, v3) == field_line(l3[0], v3[0]) + field_lines(l4, v4));
    assert(field_lines(l2, v2) == field_line(l2[0], v2[0]) + field_lines(l3, v3));
    assert(field_lines(l1, v1) == field_line(l1[0], v1[0]) + field_lines(l2, v2));
    assert(field_lines(l0, v0) == field_line(l0[0], v0[0]) + field_lines(l1, v1));
    assert(field_lines(l5, v5) =~= field_line(END_SELECTION_LABEL.spec_bytes(), o.end_selection as nat));
    assert(html_header(o) =~= VERSION_LINE.spec_bytes()
            + field_line(START_HTML_LABEL.spec_bytes(), o.start_html as nat)
            + field_line(END_HTML_LABEL.spec_bytes(), o.end_html as nat)
            + field_line(START_FRAGMENT_LABEL.spec_bytes(), o.start_fragment as nat)
            + field_line(END_FRAGMENT_LABEL.spec_bytes(), o.end_fragment as nat)
            + field_line(START_SELECTION_LABEL.spec_bytes(), o.start_selection as nat)
            + field_lines(l5, v5));
}

impl HtmlOffsets {
    /// The offsets of the document built around a fragment of `len` bytes, or
    /// `None` where that document would be too long for a `usize` to count
    /// its bytes, terminator included. An empty fragment ends one byte before
    /// it starts.
    pub fn for_fragment_len(len: usize) -> (r: Option<HtmlOffsets>)
        ensures
            r is Some <==> len + document_overhead() <= usize::MAX,
            r matches Some(o) ==> o.describes(len as nat),
    {
        proof {
            lemma_text_lengths();
        }
        let header_len: usize = VERSION_LINE.len() + START_HTML_LABEL.len() + END_HTML_LABEL.len()
            + START_FRAGMENT_LABEL.len() + END_FRAGMENT_LABEL.len() + START_SELECTION_LABEL.len()
            + END_SELECTION_LABEL.len() + 6 * (FIELD_WIDTH + 1);
        let start_fragment: usize = header_len + OPENING_SCAFFOLD.len();
        let closing_len: usize = CLOSING_SCAFFOLD.len();
        if len > usize::MAX - (start_fragment + closing_len + 1) {
            return None;
        }
        let end_fragment: usize = start_fragment + len - 1;
        Some(
            HtmlOffsets {
                start_html: header_len,
                end_html: end_fragment + closing_len,
                start_fragment,
                end_fragment,
                start_selection: start_fragment,
                end_selection: end_fragment,
            },
        )
    }
}

/// Whether `bytes` holds a zero byte.
fn has_zero_byte(bytes: &[u8]) -> (r: bool)
    ensures
        r == bytes@.contains(0u8),
{
    let mut i: usize = 0;
    while i < bytes.len()
        invariant
            i <= bytes@.len(),
            forall|j: int| 0 <= j < i ==> bytes@[j] != 0u8,
        decreases bytes@.len() - i,
    {
        if bytes[i] == 0u8 {
            assert(bytes@[i as int] == 0u8);
            return true;
        }
        i = i + 1;
    }
    false
}

/// Encodes `fragment` as a clipboard HTML document: header, opening
/// scaffold, the fragment verbatim, closing scaffold and a zero byte. Offsets
/// count bytes. The fragment is refused when it holds a zero byte or when the
/// document would be too long for its length to fit a `usize`.
pub fn encode_html_document(fragment: &[u8]) -> (r: Result<HtmlDocument, Error>)
    ensures
        r is Ok <==> !fragment@.contains(0u8) && fragment@.len() + document_overhead()
            <= usize::MAX,
        r matches Err(e) ==> e == Error::HtmlTemplateCreationError,
        r matches Ok(d) ==> {
            &&& d.offsets.describes(fragment@.len())
            &&& d.bytes@ == html_document(fragment@, d.offsets)
            &&& d.offsets.end_fragment - d.offsets.start_fragment + 1 == fragment@.len()
            &&& d.offsets.start_selection == d.offsets.start_fragment
            &&& d.offsets.end_selection == d.offsets.end_fragment
            &&& d.offsets.end_html - d.offsets.start_fragment == CLOSING_SCAFFOLD.spec_bytes().len()
                + fragment@.len() - 1
        },
{
    if has_zero_byte(fragment) {
        return Err(Error::HtmlTemplateCreationError);
    }
    let o = match HtmlOffsets::for_fragment_len(fragment.len()) {
        Some(o) => o,
        None => {
            return Err(Error::HtmlTemplateCreationError);
        },
    };
    let mut out: Vec<u8> = Vec::new();
    push_text(&mut out, VERSION_LINE);
    push_field(&mut out, START_HTML_LABEL, o.start_html);
    push_field(&mut out, END_HTML_LABEL, o.end_html);
    push_field(&mut out, START_FRAGMENT_LABEL, o.start_fragment);
    push_field(&mut out, END_FRAGMENT_LABEL, o.end_fragment);
    push_field(&mut out, START_SELECTION_LABEL, o.start_selection);
    push_field(&mut out, END_SELECTION_LABEL, o.end_selection);
    proof {
        lemma_header_unfold(o);
    }
    assert(out@ == html_header(o));
    push_text(&mut out, OPENING_SCAFFOLD);
    let mut i: usize = 0;
    while i < fragment.len()
        invariant
            i <= fragment@.len(),
            out@ == html_header(o) + OPENING_SCAFFOLD.spec_bytes() + fragment@.subrange(0, i as int),
        decreases fragment@.len() - i,
    {
        out.push(fragment[i]);
        i = i + 1;
        assert(out@ =~= html_header(o) + OPENING_SCAFFOLD.spec_bytes() + fragment@.subrange(
            0,
            i as int,
        ));
    }
    assert(fragment@.subrange(0, i as int) =~= fragment@);
    push_text(&mut out, CLOSING_SCAFFOLD);
    out.push(0u8);
    Ok(HtmlDocument { offsets: o, bytes: out })
}


/// Whether `b` is the ASCII code of a decimal digit.
pub open spec fn is_digit(b: u8) -> bool {
    48 <= b <= 57
}

/// The number that a string of decimal digits spells.
pub open spec fn decimal_value(s: Seq<u8>) -> nat
    decreases s.len(),
{
    if s.len() == 0 {
        0
    } else {
        decimal_value(s.drop_last()) * 10 + (s.last() - 48) as nat
    }
}

/// Ten to the power `n`.
pub open spec fn pow10(n: nat) -> nat
    decreases n,
{
    if n == 0 {
        1
    } else {
        10 * pow10((n - 1) as nat)
    }
}

/// Reads, at the front of `doc`, a line made of `label`, `FIELD_WIDTH` digits
/// and a newline: the number the digits spell and the bytes after the line.
pub open spec fn read_field(doc: Seq<u8>, label: Seq<u8>) -> Option<(nat, Seq<u8>)> {
    let digits_end = label.len() + FIELD_WIDTH;
    if digits_end < doc.len() && doc.subrange(0, label.len() as int) == label && (forall|i: int|
        label.len() <= i < digits_end ==> is_digit(#[trigger] doc[i])) && doc[digits_end] == 10u8 {
        Some(
            (
                decimal_value(doc.subrange(label.len() as int, digits_end)),
                doc.subrange(digits_end + 1, doc.len() as int),
            ),
        )
    } else {
        None
    }
}

/// Reads one field line per label, in order: the values read.
pub open spec fn read_fields(doc: Seq<u8>, labels: Seq<Seq<u8>>) -> Option<Seq<nat>>
    decreases labels.len(),
{
    if labels.len() == 0 {
        Some(Seq::empty())
    } else {
        match read_field(doc, labels[0]) {
            Some((v, rest)) => match read_fields(rest, labels.drop_first()) {
                Some(vs) => Some(seq![v] + vs),
                None => None,
            },
            None => None,
        }
    }
}

/// Reads the header at the front of `doc`, field by field, by name and width:
/// the six offsets in header order.
pub open spec fn parse_header(doc: Seq<u8>) -> Option<Seq<nat>> {
    let v = VERSION_LINE.spec_bytes();
    if v.len() <= doc.len() && doc.subrange(0, v.len() as int) == v {
        read_fields(doc.subrange(v.len() as int, doc.len() as int), field_labels())
    } else {
        None
    }
}

/// A zero-padded rendering has `width` digits, and spells `n` when `n` has
/// at most `width` digits.
proof fn lemma_padded_decimal(n: nat, width: nat)
    ensures
        padded_decimal(n, width).len() == width,
        forall|i: int| 0 <= i < width ==> is_digit(#[trigger] padded_decimal(n, width)[i]),
        n < pow10(width) ==> decimal_value(padded_decimal(n, width)) == n,
    decreases width,
{
    if width > 0 {
        let w1 = (width - 1) as nat;
        lemma_padded_decimal(n / 10, w1);
        let p = padded_decimal(n, width);
        assert(p.drop_last() =~= padded_decimal(n / 10, w1));
        if n < pow10(width) {
            assert(n / 10 < pow10(w1)) by (nonlinear_arith)
                requires
                    n < pow10(width),
                    pow10(width) == 10 * pow10(w1),
            ;
        }
    }
}

/// Every `usize` has fewer than `FIELD_WIDTH` digits.
proof fn lemma_usize_fits_field()
    ensures
        usize::MAX < pow10(FIELD_WIDTH as nat),
{
    reveal_with_fuel(pow10, 51);
}

/// A field line reads back as its value, leaving what follows it.
proof fn lemma_read_field(label: Seq<u8>, value: nat, tail: Seq<u8>)
    requires
        value < pow10(FIELD_WIDTH as nat),
    ensures
        read_field(field_line(label, value) + tail, label) == Some((value, tail)),
{
    let w = FIELD_WIDTH as nat;
    lemma_padded_decimal(value, w);
    let doc = field_line(label, value) + tail;
    let digits_end = (label.len() + w) as int;
    assert(doc.subrange(0, label.len() as int) =~= label);
    assert(doc.subrange(label.len() as int, digits_end) =~= padded_decimal(value, w));
    assert(doc.subrange(digits_end + 1, doc.len() as int) =~= tail);
    assert forall|i: int| label.len() <= i < digits_end implies is_digit(#[trigger] doc[i]) by {
        assert(doc[i] == padded_decimal(value, w)[i - label.len()]);
    }
}

/// Field lines read back as their values.
proof fn lemma_read_fields(labels: Seq<Seq<u8>>, values: Seq<nat>, tail: Seq<u8>)
    requires
        labels.len() == values.len(),
        forall|i: int| 0 <= i < values.len() ==> #[trigger] values[i] < pow10(FIELD_WIDTH as nat),
    ensures
        read_fields(field_lines(labels, values) + tail, labels) == Some(values),
    decreases labels.len(),
{
    if labels.len() > 0 {
        let rest = field_lines(labels.drop_first(), values.drop_first()) + tail;
        assert(field_lines(labels, values) + tail =~= field_line(labels[0], values[0]) + rest);
        lemma_read_field(labels[0], values[0], rest);
        assert forall|i: int| 0 <= i < values.drop_first().len() implies #[trigger] values.drop_first()[i]
            < pow10(FIELD_WIDTH as nat) by {
            assert(values.drop_first()[i] == values[i + 1]);
        }
        lemma_read_fields(labels.drop_first(), values.drop_first(), tail);
        assert(seq![values[0]] + values.drop_first() =~= values);
    } else {
        assert(values =~= Seq::<nat>::empty());
    }
}

/// Every header is `header_length()` bytes long.
pub proof fn lemma_header_length(o: HtmlOffsets)
    ensures
        html_header(o).len() == header_length(),
{
    lemma_header_unfold(o);
    lemma_padded_decimal(o.start_html as nat, FIELD_WIDTH as nat);
    lemma_padded_decimal(o.end_html as nat, FIELD_WIDTH as nat);
    lemma_padded_decimal(o.start_fragment as nat, FIELD_WIDTH as nat);
    lemma_padded_decimal(o.end_fragment as nat, FIELD_WIDTH as nat);
    lemma_padded_decimal(o.start_selection as nat, FIELD_WIDTH as nat);
    lemma_padded_decimal(o.end_selection as nat, FIELD_WIDTH as nat);
}

/// Reading the header of an encoded document back, field by field, gives the
/// offsets it was written with, and the bytes from the start of the fragment
/// to its end offset, inclusive, are the fragment itself.
pub proof fn lemma_header_round_trip(fragment: Seq<u8>, o: HtmlOffsets)
    requires
        o.describes(fragment.len()),
    ensures
        parse_header(html_document(fragment, o)) == Some(o.values()),
        html_document(fragment, o).subrange(
            o.values()[2] as int,
            o.values()[3] + 1 as int,
        ) == fragment,
{
    let doc = html_document(fragment, o);
    let v = VERSION_LINE.spec_bytes();
    let body = OPENING_SCAFFOLD.spec_bytes() + fragment + CLOSING_SCAFFOLD.spec_bytes() + seq![0u8];
    let lines = field_lines(field_labels(), o.values());
    assert(doc =~= v + (lines + body));
    assert(doc.subrange(0, v.len() as int) =~= v);
    assert(doc.subrange(v.len() as int, doc.len() as int) =~= lines + body);
    lemma_usize_fits_field();
    lemma_read_fields(field_labels(), o.values(), body);
    lemma_header_length(o);
    lemma_text_lengths();
    assert(doc.subrange(o.start_fragment as int, o.end_fragment + 1) =~= fragment);
}


/// Digits never make a number smaller: a longer prefix spells at least as much.
proof fn lemma_decimal_prefix_grows(s: Seq<u8>, j: int, k: int)
    requires
        0 <= j <= k <= s.len(),
        forall|i: int| 0 <= i < s.len() ==> is_digit(#[trigger] s[i]),
    ensures
        decimal_value(s.subrange(0, j)) <= decimal_value(s.subrange(0, k)),
    decreases k - j,
{
    if j < k {
        lemma_decimal_prefix_grows(s, j, k - 1);
        assert(s.subrange(0, k).drop_last() =~= s.subrange(0, k - 1));
    }
}

/// Reads the field line named `label` that starts at `pos`: its value and
/// where the next line starts. `None` where the bytes there are no such line,
/// or where its value does not fit a `usize`.
fn read_field_at(doc: &[u8], pos: usize, label: &str) -> (r: Option<(usize, usize)>)
    requires
        pos <= doc@.len(),
    ensures
        match read_field(doc@.subrange(pos as int, doc@.len() as int), label.spec_bytes()) {
            Some((v, rest)) => if v <= usize::MAX {
                r == Some((v as usize, (doc@.len() - rest.len()) as usize))
            } else {
                r is None
            },
            None => r is None,
        },
{
    let ghost d = doc@.subrange(pos as int, doc@.len() as int);
    let ghost lab = label.spec_bytes();
    let lb = label.as_bytes();
    let n = doc.len();
    if lb.len() >= n - pos || n - pos - lb.len() <= FIELD_WIDTH {
        return None;
    }
    let mut i: usize = 0;
    while i < lb.len()
        invariant
            i <= lb@.len(),
            lb@ == lab,
            lab == label.spec_bytes(),
            pos + lb@.len() + FIELD_WIDTH < n,
            n == doc@.len(),
            d == doc@.subrange(pos as int, n as int),
            forall|j: int| 0 <= j < i ==> d[j] == lab[j],
        decreases lb@.len() - i,
    {
        if doc[pos + i] != lb[i] {
            assert(d[i as int] == doc@[pos + i]);
            assert(d.subrange(0, lab.len() as int)[i as int] != lab[i as int]);
            assert(d.subrange(0, lab.len() as int) != lab);
            assert(read_field(d, lab) is None);
            return None;
        }
        i = i + 1;
    }
    assert(d.subrange(0, lab.len() as int) =~= lab);
    let start = pos + lb.len();
    let ghost digits = d.subrange(lab.len() as int, lab.len() + FIELD_WIDTH);
    let mut value: usize = 0;
    let mut k: usize = 0;
    while k < FIELD_WIDTH
        invariant
            k <= FIELD_WIDTH,
            start == pos + lab.len(),
            lab == label.spec_bytes(),
            start + FIELD_WIDTH < n,
            n == doc@.len(),
            d == doc@.subrange(pos as int, n as int),
            digits == d.subrange(lab.len() as int, lab.len() + FIELD_WIDTH),
            forall|j: int| 0 <= j < k ==> is_digit(#[trigger] digits[j]),
            value == decimal_value(digits.subrange(0, k as int)),
        decreases FIELD_WIDTH - k,
    {
        let b = doc[start + k];
        assert(b == digits[k as int]);
        if b < 48u8 || b > 57u8 {
            assert(!is_digit(d[lab.len() + k]));
            assert(read_field(d, lab) is None);
            return None;
        }
        let digit: usize = (b - 48u8) as usize;
        assert(digits.subrange(0, k + 1).drop_last() =~= digits.subrange(0, k as int));
        if value > (usize::MAX - digit) / 10 {
            proof {
                let ghost whole = read_field(d, lab);
                if whole is Some {
                    assert forall|j: int| 0 <= j < digits.len() implies is_digit(#[trigger] digits[j]) by {
                        assert(digits[j] == d[lab.len() + j]);
                    }
                    assert(value * 10 + digit > usize::MAX) by (nonlinear_arith)
                        requires
                            value > (usize::MAX - digit) / 10,
                            digit <= 9,
                    ;
                    lemma_decimal_prefix_grows(digits, k + 1, FIELD_WIDTH as int);
                    assert(digits.subrange(0, FIELD_WIDTH as int) =~= digits);
                    assert(decimal_value(digits) > usize::MAX);
                    assert(whole matches Some(p) && p.0 == decimal_value(digits));
                }
            }
            return None;
        }
        assert(value * 10 + digit <= usize::MAX) by (nonlinear_arith)
            requires
                value <= (usize::MAX - digit) / 10,
                digit <= 9,
        ;
        value = value * 10 + digit;
        k = k + 1;
    }
    assert(digits.subrange(0, FIELD_WIDTH as int) =~= digits);
    assert forall|j: int| lab.len() <= j < lab.len() + FIELD_WIDTH implies is_digit(#[trigger] d[j]) by {
        assert(d[j] == digits[j - lab.len()]);
    }
    if doc[start + FIELD_WIDTH] != 10u8 {
        return None;
    }
    let next = start + FIELD_WIDTH + 1;
    assert(d.subrange(lab.len() + FIELD_WIDTH + 1, d.len() as int).len() == n - next);
    Some((value, next))
}


/// `values` placed before what `read` found, if it found anything.
spec fn prepend_values(values: Seq<nat>, read: Option<Seq<nat>>) -> Option<Seq<nat>> {
    match read {
        Some(vs) => Some(values + vs),
        None => None,
    }
}

/// Reads the header at the front of `doc` by field names and widths, as
/// `parse_header` describes: the offsets it states, or `None` where the
/// bytes are no such header or where a value does not fit a `usize`.
pub fn read_html_header(doc: &[u8]) -> (r: Option<HtmlOffsets>)
    ensures
        r matches Some(o) ==> parse_header(doc@) == Some(o.values()),
        r is None ==> match parse_header(doc@) {
            Some(vs) => exists|j: int| 0 <= j < vs.len() && vs[j] > usize::MAX,
            None => true,
        },
{
    let ghost v = VERSION_LINE.spec_bytes();
    let vb = VERSION_LINE.as_bytes();
    if vb.len() > doc.len() {
        return None;
    }
    let mut i: usize = 0;
    while i < vb.len()
        invariant
            i <= vb@.len() <= doc@.len(),
            vb@ == v,
            v == VERSION_LINE.spec_bytes(),
            forall|j: int| 0 <= j < i ==> doc@[j] == v[j],
        decreases vb@.len() - i,
    {
        if doc[i] != vb[i] {
            assert(doc@.subrange(0, v.len() as int)[i as int] != v[i as int]);
            return None;
        }
        i = i + 1;
    }
    assert(doc@.subrange(0, v.len() as int) =~= v);
    let labels: [&str; 6] = [
        START_HTML_LABEL,
        END_HTML_LABEL,
        START_FRAGMENT_LABEL,
        END_FRAGMENT_LABEL,
        START_SELECTION_LABEL,
        END_SELECTION_LABEL,
    ];
    let ghost all = field_labels();
    let ghost whole = read_fields(doc@.subrange(v.len() as int, doc@.len() as int), all);
    assert forall|j: int| 0 <= j < 6 implies #[trigger] labels@[j].spec_bytes() == all[j] by {}
    let mut values: Vec<usize> = Vec::new();
    let mut pos: usize = vb.len();
    proof {
        assert(whole == parse_header(doc@));
        assert(values@.map_values(|x: usize| x as nat) =~= Seq::<nat>::empty());
        assert(all.skip(0) =~= all);
        if let Some(vs) = whole {
            assert(Seq::<nat>::empty() + vs =~= vs);
        }
    }
    let mut k: usize = 0;
    while k < 6
        invariant
            k <= 6,
            pos <= doc@.len() <= usize::MAX,
            all == field_labels(),
            all.len() == 6,
            forall|j: int| 0 <= j < 6 ==> #[trigger] labels@[j].spec_bytes() == all[j],
            values@.len() == k,
            whole == read_fields(doc@.subrange(v.len() as int, doc@.len() as int), all),
            whole == parse_header(doc@),
            whole == prepend_values(
                values@.map_values(|x: usize| x as nat),
                read_fields(doc@.subrange(pos as int, doc@.len() as int), all.skip(k as int)),
            ),
        decreases 6 - k,
    {
        let ghost d = doc@.subrange(pos as int, doc@.len() as int);
        let ghost before = values@.map_values(|x: usize| x as nat);
        let ghost rest_labels = all.skip(k as int);
        assert(rest_labels[0] == labels@[k as int].spec_bytes());
        assert(rest_labels.drop_first() =~= all.skip(k + 1));
        let label = labels[k];
        assert(label.spec_bytes() == rest_labels[0]);
        match read_field_at(doc, pos, label) {
            Some((value, next)) => {
                let ghost pair = read_field(d, rest_labels[0])->0;
                let ghost rest = pair.1;
                let ghost e = rest_labels[0].len() + FIELD_WIDTH;
                assert(read_field(d, rest_labels[0]) is Some);
                assert(rest == d.subrange(e + 1, d.len() as int));
                assert(pair.0 <= usize::MAX);
                assert(next == doc@.len() - rest.len());
                assert(rest.len() == d.len() - e - 1);
                assert(next == pos + e + 1);
                assert(rest =~= doc@.subrange(next as int, doc@.len() as int));
                values.push(value);
                assert(values@.map_values(|x: usize| x as nat) =~= before + seq![value as nat]);
                proof {
                    match read_fields(rest, all.skip(k + 1)) {
                        Some(vs) => {
                            assert(before + (seq![value as nat] + vs) =~= (before + seq![value as nat])
                                + vs);
                        },
                        None => {},
                    }
                }
                pos = next;
            },
            None => {
                proof {
                    if let Some(vs) = whole {
                        let pair = read_field(d, rest_labels[0])->0;
                        let tail = read_fields(pair.1, rest_labels.drop_first())->0;
                        assert(pair.0 > usize::MAX);
                        assert(vs == before + (seq![pair.0] + tail));
                        assert(vs[k as int] == pair.0);
                    }
                }
                return None;
            },
        }
        k = k + 1;
    }
    assert(all.skip(6) =~= Seq::<Seq<u8>>::empty());
    let o = HtmlOffsets {
        start_html: values[0],
        end_html: values[1],
        start_fragment: values[2],
        end_fragment: values[3],
        start_selection: values[4],
        end_selection: values[5],
    };
    assert(values@.map_values(|x: usize| x as nat) + Seq::<nat>::empty() =~= o.values());
    Some(o)
}

} // verus!
