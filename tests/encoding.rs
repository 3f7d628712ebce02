use clipboard_win_html::encoder::{CLOSING_SCAFFOLD, OPENING_SCAFFOLD};
use clipboard_win_html::encoder::read_html_header;
use clipboard_win_html::{encode_html_document, Error, HtmlOffsets};

fn expected_document(fragment: &str, o: &HtmlOffsets) -> Vec<u8> {
    let mut s = String::new();
    s.push_str("Version:0.9\n");
    s.push_str(&format!("StartHTML:{:0>50}\n", o.start_html));
    s.push_str(&format!("EndHTML:{:0>50}\n", o.end_html));
    s.push_str(&format!("StartFragment:{:0>50}\n", o.start_fragment));
    s.push_str(&format!("EndFragment:{:0>50}\n", o.end_fragment));
    s.push_str(&format!("StartSelection:{:0>50}\n", o.start_selection));
    s.push_str(&format!("EndSelection:{:0>50}\n", o.end_selection));
    s.push_str("<!DOCTYPE>\n<HTML>\n<HEAD>\n</HEAD>\n<BODY>\n<!-- StartFragment -->\n");
    s.push_str(fragment);
    s.push_str("\n<!-- EndFragment -->\n</BODY>\n</HTML>");
    let mut bytes = s.into_bytes();
    bytes.push(0);
    bytes
}

/// Reads the named field from the header text: 50 digits after the label.
fn read_field(doc: &[u8], label: &str) -> usize {
    let text = std::str::from_utf8(doc).unwrap();
    let at = text.find(&format!("\n{}", label)).unwrap() + 1 + label.len();
    let digits = &text[at..at + 50];
    assert!(digits.bytes().all(|b| b.is_ascii_digit()));
    assert_eq!(&text[at + 50..at + 51], "\n");
    digits.parse::<u128>().unwrap() as usize
}

#[test]
fn header_shape_is_fixed() {
    let d = encode_html_document(b"<p>x</p>").unwrap();
    assert_eq!(d.offsets.start_html, 390);
    assert_eq!(d.offsets.start_fragment, 453);
    assert_eq!(OPENING_SCAFFOLD.len(), 63);
    assert_eq!(CLOSING_SCAFFOLD.len(), 37);
}

#[test]
fn document_matches_layout() {
    let fragment = "<h1>Pure, valid, HTML.</h1>";
    let d = encode_html_document(fragment.as_bytes()).unwrap();
    let o = d.offsets;
    assert_eq!(o.start_fragment, 453);
    assert_eq!(o.end_fragment, 453 + 27 - 1);
    assert_eq!(o.end_html, 453 + 27 - 1 + 37);
    assert_eq!(o.start_selection, o.start_fragment);
    assert_eq!(o.end_selection, o.end_fragment);
    assert_eq!(d.bytes, expected_document(fragment, &o));
    assert_eq!(d.bytes.len(), 453 + 27 + 37 + 1);
    assert_eq!(*d.bytes.last().unwrap(), 0u8);
    assert_eq!(o.end_html, d.bytes.len() - 2);
}

#[test]
fn fragment_span_is_its_length() {
    for fragment in ["a", "<b>bold</b>", "<h1>2nd Pure, valid, HTML.</h1>"] {
        let d = encode_html_document(fragment.as_bytes()).unwrap();
        let o = d.offsets;
        assert_eq!(o.end_fragment - o.start_fragment + 1, fragment.len());
        assert_eq!(o.end_html - o.start_fragment, 37 + fragment.len() - 1);
    }
}

#[test]
fn end_html_ignores_content() {
    let a = encode_html_document(b"<i>abc</i>").unwrap();
    let b = encode_html_document(b"<u>xyz</u>").unwrap();
    assert_eq!(a.offsets, b.offsets);
    assert_ne!(a.bytes, b.bytes);
}

#[test]
fn header_reads_back() {
    let fragment = "<h1>3nd Pure, valid, HTML.</h1>";
    let d = encode_html_document(fragment.as_bytes()).unwrap();
    let doc = &d.bytes;
    assert!(doc.starts_with(b"Version:0.9\n"));
    let start_html = read_field(doc, "StartHTML:");
    let end_html = read_field(doc, "EndHTML:");
    let start_fragment = read_field(doc, "StartFragment:");
    let end_fragment = read_field(doc, "EndFragment:");
    let start_selection = read_field(doc, "StartSelection:");
    let end_selection = read_field(doc, "EndSelection:");
    assert_eq!(start_html, d.offsets.start_html);
    assert_eq!(end_html, d.offsets.end_html);
    assert_eq!(start_fragment, d.offsets.start_fragment);
    assert_eq!(end_fragment, d.offsets.end_fragment);
    assert_eq!(start_selection, d.offsets.start_selection);
    assert_eq!(end_selection, d.offsets.end_selection);
    assert_eq!(&doc[start_fragment..=end_fragment], fragment.as_bytes());
    assert_eq!(&doc[start_html..start_html + 10], b"<!DOCTYPE>");
    assert_eq!(&doc[end_html - 6..=end_html], b"</HTML>");
}

#[test]
fn empty_fragment_ends_before_it_starts() {
    let d = encode_html_document(b"").unwrap();
    assert_eq!(d.offsets.start_fragment, 453);
    assert_eq!(d.offsets.end_fragment, 452);
    assert_eq!(d.offsets.end_selection, 452);
    assert_eq!(d.offsets.end_html, 452 + 37);
    assert_eq!(d.bytes, expected_document("", &d.offsets));
}

#[test]
fn zero_byte_is_refused() {
    let r = encode_html_document(b"<p>a\0b</p>");
    assert!(matches!(r, Err(Error::HtmlTemplateCreationError)));
    assert!(matches!(encode_html_document(b"\0"), Err(Error::HtmlTemplateCreationError)));
}

#[test]
fn multibyte_fragment_counts_bytes() {
    let fragment = "<p>café ☕</p>";
    let d = encode_html_document(fragment.as_bytes()).unwrap();
    assert_eq!(d.offsets.end_fragment - d.offsets.start_fragment + 1, fragment.len());
    assert_eq!(&d.bytes[d.offsets.start_fragment..=d.offsets.end_fragment], fragment.as_bytes());
}

#[test]
fn offsets_for_lengths() {
    let o = HtmlOffsets::for_fragment_len(10).unwrap();
    assert_eq!(o.start_html, 390);
    assert_eq!(o.end_fragment, 462);
    assert_eq!(o.end_html, 499);
    assert!(HtmlOffsets::for_fragment_len(usize::MAX - 491).is_some());
    assert!(HtmlOffsets::for_fragment_len(usize::MAX - 490).is_none());
    assert!(HtmlOffsets::for_fragment_len(usize::MAX).is_none());
}

#[test]
fn error_messages() {
    assert_eq!(Error::HtmlTemplateCreationError.message(), "Failed to create HTML template.");
    assert_eq!(Error::SetClipboardError.message(), "Failed to set clipboard.");
    assert_eq!(Error::OpenClipboardError.message(), "Failed to open clipboard.");
    assert_eq!(Error::MemoryAllocationError.message(), "Failed to allocate memory.");
}

#[test]
fn header_reader_recovers_offsets() {
    for fragment in ["", "<h1>4th Pure, valid, HTML.</h1>", "<p>é</p>"] {
        let d = encode_html_document(fragment.as_bytes()).unwrap();
        let o = read_html_header(&d.bytes).unwrap();
        assert_eq!(o, d.offsets);
        if !fragment.is_empty() {
            assert_eq!(&d.bytes[o.start_fragment..=o.end_fragment], fragment.as_bytes());
        }
    }
}

#[test]
fn header_reader_refuses_other_text() {
    assert_eq!(read_html_header(b""), None);
    assert_eq!(read_html_header(b"Version:1.0\n"), None);
    let mut d = encode_html_document(b"<p>x</p>").unwrap().bytes;
    d[12] = b'X';
    assert_eq!(read_html_header(&d), None);
    let mut d = encode_html_document(b"<p>x</p>").unwrap().bytes;
    d[12 + 10 + 3] = b'a';
    assert_eq!(read_html_header(&d), None);
    let mut d = encode_html_document(b"<p>x</p>").unwrap().bytes;
    d.truncate(200);
    assert_eq!(read_html_header(&d), None);
}

#[test]
fn header_reader_refuses_oversized_values() {
    let mut text = String::from("Version:0.9\n");
    let nines = "9".repeat(50);
    for label in ["StartHTML:", "EndHTML:", "StartFragment:", "EndFragment:", "StartSelection:", "EndSelection:"] {
        text.push_str(label);
        text.push_str(&nines);
        text.push('\n');
    }
    assert_eq!(read_html_header(text.as_bytes()), None);
    let mut small = String::from("Version:0.9\n");
    for (i, label) in ["StartHTML:", "EndHTML:", "StartFragment:", "EndFragment:", "StartSelection:", "EndSelection:"].iter().enumerate() {
        small.push_str(&format!("{}{:0>50}\n", label, i + 1));
    }
    let o = read_html_header(small.as_bytes()).unwrap();
    assert_eq!((o.start_html, o.end_html, o.start_fragment), (1, 2, 3));
    assert_eq!((o.end_fragment, o.start_selection, o.end_selection), (4, 5, 6));
}
