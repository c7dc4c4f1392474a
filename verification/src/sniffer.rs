//! Stateless format sniffer: classifies a byte payload against three
//! independent structural grammars (JSON, XML, Markdown) and produces a
//! diagnostic report.
//!
//! The three grammar verdicts come from outside parsers, reached through
//! trusted wrappers; each verdict is a pure function of the text, named by an
//! uninterpreted spec function, and the report is pinned exactly over those
//! names, so classification is deterministic by contract.
use vstd::prelude::*;
use vstd::utf8::decode_utf8;
use vstd::utf8::valid_utf8;

verus! {

/// The fixed size ceiling of the classification endpoint: 64 KB.
pub const MAX_SNIFF_BYTES: usize = 65536;

/// The one failure of classification that is reported to the caller: the
/// payload was larger than the ceiling, and no check was attempted.
#[derive(Clone, Copy, Debug, PartialEq, Eq, Structural)]
pub enum SniffError {
    PayloadTooLarge,
}

/// The outcome of one classification call. The three flags are independent:
/// one payload may satisfy several grammars at once. `details` holds the
/// diagnostic lines, in check order: JSON, then XML, then Markdown, then a
/// fallback line when nothing matched, then one closing line.
#[derive(Clone, Debug, PartialEq, Eq)]
pub struct ClassificationReport {
    pub is_json: bool,
    pub is_xml: bool,
    pub is_markdown: bool,
    pub details: Vec<String>,
}

/// Whether the whole text is exactly one well-formed JSON value, with no
/// trailing characters: the verdict of `serde_json::from_str::<Value>`.
pub uninterp spec fn json_well_formed(text: Seq<char>) -> bool;

/// Whether a full streaming tag/text scan of the text reaches end-of-input
/// without a malformed token: the verdict of a `quick_xml::Reader` scan.
pub uninterp spec fn xml_well_formed(text: Seq<char>) -> bool;

/// Whether the remaining scan of this reader reaches end-of-input without a
/// malformed token.
pub uninterp spec fn xml_scan_ok(reader: quick_xml::Reader<&[u8]>) -> bool;

/// How much input this reader has left: a measure that every productive scan
/// step strictly shrinks.
pub uninterp spec fn xml_scan_fuel(reader: quick_xml::Reader<&[u8]>) -> nat;

/// Whether a block-level Markdown tokenization of the text yields at least
/// one event: the verdict of `pulldown_cmark::Parser`.
pub uninterp spec fn markdown_has_event(text: Seq<char>) -> bool;

#[verifier::external_type_specification]
#[verifier::external_body]
#[verifier::reject_recursive_types(R)]
pub struct ExXmlReader<R>(quick_xml::Reader<R>);

/// What one step of the streaming XML scan reported.
enum XmlStep {
    Finished,
    Progressed,
    Failed,
}

/// Relies on `std::str::from_utf8`: it returns `Ok` exactly when the bytes
/// are valid UTF-8, and the resulting text is their decoding.
#[verifier::external_body]
fn decode_text(bytes: &Vec<u8>) -> (decoded: Option<String>)
    ensures
        decoded is Some <==> valid_utf8(bytes@),
        (decoded matches Some(text) ==> text@ == decode_utf8(bytes@)),
{
    match std::str::from_utf8(bytes) {
        Ok(text) => Some(text.to_owned()),
        Err(_) => None,
    }
}

/// Relies on `serde_json::from_str::<Value>`: it returns `Ok` exactly when
/// the whole text is one well-formed JSON value with nothing trailing, and
/// its verdict depends on the text alone.
#[verifier::external_body]
fn json_parses(text: &str) -> (verdict: bool)
    ensures
        verdict == json_well_formed(text@),
{
    serde_json::from_str::<serde_json::Value>(text).is_ok()
}

/// Relies on `quick_xml::Reader::from_str` and `Reader::trim_text`: a fresh
/// reader scans the whole text, and the outcome of that scan is a function of
/// the text alone (trimming only strips whitespace from text events; it never
/// adds or removes a scan error).
#[verifier::external_body]
fn xml_reader_new<'a>(text: &'a str) -> (reader: quick_xml::Reader<&'a [u8]>)
    ensures
        xml_scan_ok(reader) == xml_well_formed(text@),
{
    let mut reader = quick_xml::Reader::from_str(text);
    reader.trim_text(true);
    reader
}

/// Relies on `quick_xml::Reader::read_event_into`: `Eof` comes only at a
/// clean end of input, `Err` only on a malformed token, and any other event
/// consumes at least one byte of sound input, leaving the verdict of the
/// rest of the scan as it was.
#[verifier::external_body]
fn xml_next_step(reader: &mut quick_xml::Reader<&[u8]>) -> (step: XmlStep)
    ensures
        step is Finished ==> xml_scan_ok(*old(reader)),
        step is Failed ==> !xml_scan_ok(*old(reader)),
        step is Progressed ==> xml_scan_ok(*final(reader)) == xml_scan_ok(*old(reader)),
        step is Progressed ==> xml_scan_fuel(*final(reader)) < xml_scan_fuel(*old(reader)),
{
    let mut buf = Vec::new();
    match reader.read_event_into(&mut buf) {
        Ok(quick_xml::events::Event::Eof) => XmlStep::Finished,
        Ok(_) => XmlStep::Progressed,
        Err(_) => XmlStep::Failed,
    }
}

/// Relies on `pulldown_cmark::Parser::new` and its `Iterator` impl: whether
/// any event is produced is a function of the text alone, and an empty text
/// produces no event.
#[verifier::external_body]
fn markdown_first_event_exists(text: &str) -> (verdict: bool)
    ensures
        verdict == markdown_has_event(text@),
        text@.len() == 0 ==> !verdict,
{
    let mut parser = pulldown_cmark::Parser::new(text);
    parser.next().is_some()
}

/// Drives a full tag/text scan over the text and reports whether it reached
/// end-of-input without a malformed token.
fn xml_scan(text: &str) -> (verdict: bool)
    ensures
        verdict == xml_well_formed(text@),
{
    let mut reader = xml_reader_new(text);
    loop
        invariant
            xml_scan_ok(reader) == xml_well_formed(text@),
        decreases xml_scan_fuel(reader),
    {
        match xml_next_step(&mut reader) {
            XmlStep::Finished => {
                return true;
            }
            XmlStep::Failed => {
                return false;
            }
            XmlStep::Progressed => {},
        }
    }
}

/// The JSON verdict for a byte payload: decodes as UTF-8 and the text is one
/// well-formed JSON value.
pub open spec fn spec_is_json(bytes: Seq<u8>) -> bool {
    valid_utf8(bytes) && json_well_formed(decode_utf8(bytes))
}

/// The XML verdict for a byte payload: decodes as UTF-8 and a full scan of
/// the text ends cleanly.
pub open spec fn spec_is_xml(bytes: Seq<u8>) -> bool {
    valid_utf8(bytes) && xml_well_formed(decode_utf8(bytes))
}

/// The Markdown verdict for a byte payload: decodes as UTF-8 and the text
/// yields at least one Markdown event.
pub open spec fn spec_is_markdown(bytes: Seq<u8>) -> bool {
    valid_utf8(bytes) && markdown_has_event(decode_utf8(bytes))
}

/// The views of the diagnostic lines of a report.
pub open spec fn details_view(details: Seq<String>) -> Seq<Seq<char>> {
    details.map_values(|line: String| line@)
}

/// The exact diagnostic lines owed for a byte payload, in check order.
pub open spec fn spec_details(bytes: Seq<u8>) -> Seq<Seq<char>> {
    if !valid_utf8(bytes) {
        seq!["Payload is not valid UTF-8 text."@]
    } else {
        (if spec_is_json(bytes) {
            seq!["Valid JSON detected."@]
        } else {
            Seq::<Seq<char>>::empty()
        }) + (if spec_is_xml(bytes) {
            seq!["Valid XML detected."@]
        } else {
            Seq::<Seq<char>>::empty()
        }) + (if spec_is_markdown(bytes) {
            seq!["Markdown content detected (parsed successfully)."@]
        } else {
            Seq::<Seq<char>>::empty()
        }) + (if !spec_is_json(bytes) && !spec_is_xml(bytes) && !spec_is_markdown(bytes) {
            seq!["No known markup detected (JSON, XML, Markdown)."@]
        } else {
            Seq::<Seq<char>>::empty()
        }) + seq!["Anyways, it's gone now."@]
    }
}

/// What a report owes to the payload it classified: every field is pinned as
/// a function of the bytes alone.
pub open spec fn report_for(
    bytes: Seq<u8>,
    is_json: bool,
    is_xml: bool,
    is_markdown: bool,
    details: Seq<Seq<char>>,
) -> bool {
    &&& is_json == spec_is_json(bytes)
    &&& is_xml == spec_is_xml(bytes)
    &&& is_markdown == spec_is_markdown(bytes)
    &&& details == spec_details(bytes)
}

/// Classifies a byte payload against the three grammars.
///
/// A payload over `max_size` bytes is rejected outright, with no check run.
/// A payload that is not valid UTF-8 yields a report with all flags false and
/// a single diagnostic line. Otherwise each of the three checks runs
/// independently on the decoded text.
pub fn classify(bytes: &Vec<u8>, max_size: usize) -> (result: Result<
    ClassificationReport,
    SniffError,
>)
    ensures
        bytes@.len() > max_size <==> result is Err,
        (result matches Err(e) ==> e == SniffError::PayloadTooLarge),
        (result matches Ok(report) ==> report_for(
            bytes@,
            report.is_json,
            report.is_xml,
            report.is_markdown,
            details_view(report.details@),
        )),
        (result matches Ok(report) ==> (bytes@.len() == 0 ==> !report.is_markdown)),
{
    if bytes.len() > max_size {
        return Err(SniffError::PayloadTooLarge);
    }
    let mut details: Vec<String> = Vec::new();
    match decode_text(bytes) {
        None => {
            details.push("Payload is not valid UTF-8 text.".to_owned());
            let report = ClassificationReport {
                is_json: false,
                is_xml: false,
                is_markdown: false,
                details,
            };
            proof {
                assert(details_view(report.details@) =~= spec_details(bytes@));
            }
            Ok(report)
        },
        Some(text) => {
            let is_json = json_parses(text.as_str());
            if is_json {
                details.push("Valid JSON detected.".to_owned());
            }
            let is_xml = xml_scan(text.as_str());
            if is_xml {
                details.push("Valid XML detected.".to_owned());
            }
            let is_markdown = markdown_first_event_exists(text.as_str());
            if is_markdown {
                details.push("Markdown content detected (parsed successfully).".to_owned());
            }
            if !is_json && !is_xml && !is_markdown {
                details.push("No known markup detected (JSON, XML, Markdown).".to_owned());
            }
            details.push("Anyways, it's gone now.".to_owned());
            let report = ClassificationReport { is_json, is_xml, is_markdown, details };
            proof {
                if bytes@.len() == 0 {
                    assert(decode_utf8(bytes@) =~= Seq::<char>::empty());
                }
                assert(details_view(report.details@) =~= spec_details(bytes@));
            }
            Ok(report)
        },
    }
}

/// Classification is deterministic: two reports that both satisfy the
/// classification contract for the same payload agree on every flag and on
/// every diagnostic line.
pub proof fn lemma_classify_deterministic(
    bytes: Seq<u8>,
    j1: bool,
    x1: bool,
    m1: bool,
    d1: Seq<Seq<char>>,
    j2: bool,
    x2: bool,
    m2: bool,
    d2: Seq<Seq<char>>,
)
    requires
        report_for(bytes, j1, x1, m1, d1),
        report_for(bytes, j2, x2, m2, d2),
    ensures
        j1 == j2,
        x1 == x2,
        m1 == m2,
        d1 == d2,
{
}

} // verus!
