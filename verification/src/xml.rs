//! Putting level data into the XML of the save file: the level data goes
//! into the first text after the first `k4` key, and the text after each
//! `k2` key before that point names the level being written.

use quick_xml::events::BytesText;
use vstd::string::StringSliceAdditionalSpecFns;
use quick_xml::events::Event;
use quick_xml::Reader;
use quick_xml::Writer;
use vstd::prelude::*;

use crate::save::base64_too_large;
use crate::save::encode_level_data;
use crate::save::level_data_for;
use crate::save::level_gzip;
use crate::save::SaveError;

verus! {

/// The key after which the save file holds a level's data.
pub open spec fn k4_key() -> Seq<char> {
    seq!['k', '4']
}

/// The key after which the save file holds a level's name.
pub open spec fn k2_key() -> Seq<char> {
    seq!['k', '2']
}

/// The events of an XML document as the rewrite sees them: the text of each
/// text event, `None` for every other event.
pub open spec fn text_views(texts: Seq<Option<String>>) -> Seq<Option<Seq<char>>> {
    texts.map_values(|t: Option<String>| match t {
        Some(s) => Some(s@),
        None => None,
    })
}

/// Event `i` is a text event with text `t`.
pub open spec fn has_text(ev: Seq<Option<Seq<char>>>, i: int, t: Seq<char>) -> bool {
    0 <= i < ev.len() && ev[i] == Some(t)
}

/// Event `i` is a text event.
pub open spec fn is_text_event(ev: Seq<Option<Seq<char>>>, i: int) -> bool {
    0 <= i < ev.len() && ev[i] is Some
}

/// No event strictly between `i` and `j` is a text event.
pub open spec fn no_text_between(ev: Seq<Option<Seq<char>>>, i: int, j: int) -> bool {
    forall|l: int| i < l < j ==> !#[trigger] is_text_event(ev, l)
}

/// Event `j` is the first text event after event `i`.
pub open spec fn next_text(ev: Seq<Option<Seq<char>>>, i: int, j: int) -> bool {
    0 <= i < j && is_text_event(ev, j) && no_text_between(ev, i, j)
}

/// Event `i` is the first text event with text `t`.
pub open spec fn first_with(ev: Seq<Option<Seq<char>>>, i: int, t: Seq<char>) -> bool {
    has_text(ev, i, t) && forall|l: int| 0 <= l < i ==> !#[trigger] has_text(ev, l, t)
}

/// Event `j` receives the level data: it is the first text event after the
/// first `k4` key.
pub open spec fn is_replaced(ev: Seq<Option<Seq<char>>>, j: int) -> bool {
    exists|i: int| #[trigger] first_with(ev, i, k4_key()) && next_text(ev, i, j)
}

/// Event `p` comes before the event that receives the level data, if any.
pub open spec fn before_replacement(ev: Seq<Option<Seq<char>>>, p: int) -> bool {
    forall|r: int| #[trigger] is_replaced(ev, r) ==> p < r
}

/// Event `j` names the level: it is the first text event after a `k2` key
/// that comes before the event receiving the level data.
pub open spec fn is_announced(ev: Seq<Option<Seq<char>>>, j: int) -> bool {
    exists|p: int| #[trigger] has_text(ev, p, k2_key()) && before_replacement(ev, p) && next_text(ev, p, j)
}

/// The events below `n` that name the level, in increasing order.
pub open spec fn announced_below(ev: Seq<Option<Seq<char>>>, n: int) -> Seq<int>
    decreases n,
{
    if n <= 0 {
        Seq::empty()
    } else if is_announced(ev, n - 1) {
        announced_below(ev, n - 1).push(n - 1)
    } else {
        announced_below(ev, n - 1)
    }
}

/// The first event with a given text is unique.
proof fn lemma_first_unique(ev: Seq<Option<Seq<char>>>, i1: int, i2: int, t: Seq<char>)
    requires
        first_with(ev, i1, t),
        first_with(ev, i2, t),
    ensures
        i1 == i2,
{
    if i1 < i2 {
        assert(!has_text(ev, i1, t));
    } else if i2 < i1 {
        assert(!has_text(ev, i2, t));
    }
}

/// The next text event after an event is unique.
proof fn lemma_next_unique(ev: Seq<Option<Seq<char>>>, i: int, j1: int, j2: int)
    requires
        next_text(ev, i, j1),
        next_text(ev, i, j2),
    ensures
        j1 == j2,
{
    if j1 < j2 {
        assert(!is_text_event(ev, j1));
    } else if j2 < j1 {
        assert(!is_text_event(ev, j2));
    }
}

/// At most one event receives the level data.
pub proof fn at_most_one_replacement(ev: Seq<Option<Seq<char>>>, j1: int, j2: int)
    requires
        is_replaced(ev, j1),
        is_replaced(ev, j2),
    ensures
        j1 == j2,
{
    let i1 = choose|i: int| #[trigger] first_with(ev, i, k4_key()) && next_text(ev, i, j1);
    let i2 = choose|i: int| #[trigger] first_with(ev, i, k4_key()) && next_text(ev, i, j2);
    lemma_first_unique(ev, i1, i2, k4_key());
    lemma_next_unique(ev, i1, j1, j2);
}

/// Where some event has text `t`, a first such event exists.
proof fn lemma_first_exists(ev: Seq<Option<Seq<char>>>, i: int, t: Seq<char>)
    requires
        has_text(ev, i, t),
    ensures
        exists|f: int| f <= i && #[trigger] first_with(ev, f, t),
    decreases i,
{
    if exists|l: int| 0 <= l < i && #[trigger] has_text(ev, l, t) {
        let l = choose|l: int| 0 <= l < i && #[trigger] has_text(ev, l, t);
        lemma_first_exists(ev, l, t);
    } else {
        assert(first_with(ev, i, t));
    }
}

/// Where a text event `j` follows event `i`, a next text event after `i`
/// exists, no later than `j`.
proof fn lemma_next_exists(ev: Seq<Option<Seq<char>>>, i: int, j: int)
    requires
        0 <= i < j,
        is_text_event(ev, j),
    ensures
        exists|k: int| k <= j && #[trigger] next_text(ev, i, k),
    decreases j - i,
{
    if exists|l: int| i < l < j && #[trigger] is_text_event(ev, l) {
        let l = choose|l: int| i < l < j && #[trigger] is_text_event(ev, l);
        lemma_next_exists(ev, i, l);
    } else {
        assert(next_text(ev, i, j));
    }
}

/// The level data goes in exactly when some text event follows a `k4` key.
pub proof fn data_goes_in_iff_text_follows_k4(ev: Seq<Option<Seq<char>>>)
    ensures
        (exists|r: int| #[trigger] is_replaced(ev, r)) <==> (exists|i: int, j: int|
            #[trigger] has_text(ev, i, k4_key()) && i < j && #[trigger] is_text_event(ev, j)),
{
    if exists|i: int, j: int| #[trigger] has_text(ev, i, k4_key()) && i < j && #[trigger] is_text_event(ev, j) {
        let (i, j) = choose|i: int, j: int| #[trigger] has_text(ev, i, k4_key()) && i < j && #[trigger] is_text_event(ev, j);
        lemma_first_exists(ev, i, k4_key());
        let f = choose|f: int| f <= i && #[trigger] first_with(ev, f, k4_key());
        lemma_next_exists(ev, f, j);
        let k = choose|k: int| k <= j && #[trigger] next_text(ev, f, k);
        assert(is_replaced(ev, k));
    }
    if exists|r: int| #[trigger] is_replaced(ev, r) {
        let r = choose|r: int| #[trigger] is_replaced(ev, r);
        let i = choose|i: int| #[trigger] first_with(ev, i, k4_key()) && next_text(ev, i, r);
        assert(has_text(ev, i, k4_key()) && i < r && is_text_event(ev, r));
    }
}

/// At a text event, the level data goes in exactly when a `k4` key has been
/// seen and has not yet been followed by text.
proof fn lemma_replacement_step(
    ev: Seq<Option<Seq<char>>>,
    idx: int,
    first_k4: Option<int>,
    last_text: Option<int>,
    replace: Option<usize>,
    k4_detected: bool,
)
    requires
        0 <= idx < ev.len(),
        is_text_event(ev, idx),
        replace matches Some(r) ==> r < idx && is_replaced(ev, r as int),
        replace is None ==> forall|r: int| 0 <= r < idx ==> !#[trigger] is_replaced(ev, r),
        first_k4 matches Some(i) ==> i < idx && first_with(ev, i, k4_key()),
        first_k4 is None ==> forall|l: int| 0 <= l < idx ==> !#[trigger] has_text(ev, l, k4_key()),
        last_text matches Some(p) ==> p < idx && is_text_event(ev, p) && no_text_between(ev, p, idx),
        k4_detected <==> (first_k4 is Some && replace is None),
        (first_k4 is Some && replace is None) ==> last_text == first_k4,
    ensures
        is_replaced(ev, idx) <==> k4_detected,
{
    if k4_detected {
        let i = first_k4->0;
        assert(next_text(ev, i, idx));
        assert(first_with(ev, i, k4_key()));
    }
    if is_replaced(ev, idx) {
        let i = choose|i: int| #[trigger] first_with(ev, i, k4_key()) && next_text(ev, i, idx);
        assert(has_text(ev, i, k4_key()));
        let i0 = first_k4->0;
        lemma_first_unique(ev, i, i0, k4_key());
        if let Some(r0) = replace {
            at_most_one_replacement(ev, r0 as int, idx);
        }
    }
}

/// At a text event, the event names the level exactly when the text event
/// before it is a `k2` key that came before the level data went in.
proof fn lemma_announcement_step(
    ev: Seq<Option<Seq<char>>>,
    idx: int,
    last_text: Option<int>,
    replace: Option<usize>,
    k2_detected: bool,
)
    requires
        0 <= idx < ev.len(),
        is_text_event(ev, idx),
        replace matches Some(r) ==> r < idx && is_replaced(ev, r as int),
        replace is None ==> forall|r: int| 0 <= r < idx ==> !#[trigger] is_replaced(ev, r),
        last_text matches Some(p) ==> p < idx && is_text_event(ev, p) && no_text_between(ev, p, idx),
        last_text is None ==> forall|l: int| 0 <= l < idx ==> !#[trigger] is_text_event(ev, l),
        k2_detected <==> (last_text matches Some(p) && has_text(ev, p, k2_key()) && !(replace matches Some(r)
            && r <= p)),
    ensures
        is_announced(ev, idx) <==> k2_detected,
{
    if k2_detected {
        let p = last_text->0;
        assert forall|r: int| #[trigger] is_replaced(ev, r) implies p < r by {
            if r < idx {
                if let Some(r0) = replace {
                    at_most_one_replacement(ev, r, r0 as int);
                }
            }
        }
        assert(next_text(ev, p, idx));
        assert(has_text(ev, p, k2_key()));
    }
    if is_announced(ev, idx) {
        let p = choose|p: int| #[trigger] has_text(ev, p, k2_key()) && before_replacement(ev, p) && next_text(ev, p, idx);
        assert(is_text_event(ev, p));
        if let Some(q) = last_text {
            if q < p {
                assert(!is_text_event(ev, p));
            } else if p < q {
                assert(!is_text_event(ev, q));
            }
        }
        if let Some(r0) = replace {
            assert(is_replaced(ev, r0 as int));
        }
    }
}

/// Which events of an XML document the rewrite changes or reports.
pub struct RewritePlan {
    /// The event that receives the level data, if any.
    pub replace: Option<usize>,
    /// The events that name the level, in increasing order.
    pub announce: Vec<usize>,
}

/// Decides, from the texts of the events of an XML document (`None` for an
/// event that is not text), which event receives the level data and which
/// events name the level.
pub fn plan_level_rewrite(texts: &Vec<Option<String>>) -> (plan: RewritePlan)
    ensures
        match plan.replace {
            Some(j) => is_replaced(text_views(texts@), j as int),
            None => forall|j: int| !#[trigger] is_replaced(text_views(texts@), j),
        },
        plan.announce@.map_values(|j: usize| j as int) == announced_below(
            text_views(texts@),
            texts@.len() as int,
        ),
{
    let ghost ev = text_views(texts@);
    let k4 = "k4".to_string();
    let k2 = "k2".to_string();
    proof {
        reveal_strlit("k4");
        reveal_strlit("k2");
        assert(k4@ == k4_key());
        assert(k2@ == k2_key());
    }
    let mut replace: Option<usize> = None;
    let mut announce: Vec<usize> = Vec::new();
    let mut k4_detected = false;
    let mut k2_detected = false;
    let ghost mut first_k4: Option<int> = None;
    let ghost mut last_text: Option<int> = None;
    let n = texts.len();
    for idx in 0..n
        invariant
            n == texts.len(),
            ev == text_views(texts@),
            ev.len() == n,
            k4@ == k4_key(),
            k2@ == k2_key(),
            replace matches Some(r) ==> r < idx && is_replaced(ev, r as int) && first_k4 is Some,
            replace is None ==> forall|r: int| 0 <= r < idx ==> !#[trigger] is_replaced(ev, r),
            first_k4 matches Some(i) ==> i < idx && first_with(ev, i, k4_key()),
            first_k4 is None ==> forall|l: int| 0 <= l < idx ==> !#[trigger] has_text(ev, l, k4_key()),
            last_text matches Some(p) ==> p < idx && is_text_event(ev, p) && no_text_between(ev, p, idx as int),
            last_text is None ==> forall|l: int| 0 <= l < idx ==> !#[trigger] is_text_event(ev, l),
            k4_detected <==> (first_k4 is Some && replace is None),
            (first_k4 is Some && replace is None) ==> last_text == first_k4,
            k2_detected <==> (last_text matches Some(p) && has_text(ev, p, k2_key()) && !(replace matches Some(
                r,
            ) && r <= p)),
            announce@.map_values(|j: usize| j as int) == announced_below(ev, idx as int),
    {
        let ghost old_replace = replace;
        let ghost old_announce = announce@;
        assert(ev[idx as int] == match texts@[idx as int] {
            Some(s) => Some(s@),
            None => None,
        });
        match &texts[idx] {
            None => {
                proof {
                    assert(!is_text_event(ev, idx as int));
                    assert(!is_replaced(ev, idx as int));
                    assert(!is_announced(ev, idx as int));
                    assert(announce@.map_values(|j: usize| j as int) =~= announced_below(ev, idx + 1));
                    if let Some(p) = last_text {
                        assert(no_text_between(ev, p, idx + 1));
                    }
                }
            },
            Some(t) => {
                let is_k4 = *t == k4;
                let is_k2 = *t == k2;
                proof {
                    assert(is_text_event(ev, idx as int));
                    assert(is_k4 == has_text(ev, idx as int, k4_key()));
                    assert(is_k2 == has_text(ev, idx as int, k2_key()));
                    lemma_replacement_step(ev, idx as int, first_k4, last_text, old_replace, k4_detected);
                    lemma_announcement_step(ev, idx as int, last_text, old_replace, k2_detected);
                }
                if k4_detected {
                    replace = Some(idx);
                    k4_detected = false;
                }
                if k2_detected {
                    announce.push(idx);
                    k2_detected = false;
                }
                proof {
                    assert(announce@.map_values(|j: usize| j as int) =~= announced_below(ev, idx + 1));
                }
                if replace.is_none() && is_k4 {
                    k4_detected = true;
                    proof {
                        first_k4 = Some(idx as int);
                    }
                }
                if replace.is_none() && is_k2 {
                    k2_detected = true;
                }
                proof {
                    last_text = Some(idx as int);
                }
            },
        }
    }
    proof {
        if replace is None {
            assert forall|j: int| !#[trigger] is_replaced(ev, j) by {
                if is_replaced(ev, j) {
                    let i = choose|i: int| #[trigger] first_with(ev, i, k4_key()) && next_text(ev, i, j);
                    assert(is_text_event(ev, j));
                }
            }
        }
    }
    RewritePlan { replace, announce }
}


/// A `quick_xml::Reader` over a document held in memory.
#[verifier::external_body]
pub struct XmlReader {
    reader: Reader<std::io::Cursor<Vec<u8>>>,
}

/// An event that a `quick_xml::Reader` produced, owned.
#[verifier::external_body]
pub struct XmlEvent {
    event: Event<'static>,
}

/// A `quick_xml::Writer` into a `Vec`.
#[verifier::external_body]
pub struct XmlWriter {
    writer: Writer<Vec<u8>>,
}

#[verifier::external_type_specification]
#[verifier::external_body]
pub struct ExXmlError(quick_xml::Error);

/// The document that `reader` reads.
pub uninterp spec fn reader_input(reader: XmlReader) -> Seq<u8>;

/// How many times `read_event` has been called on `reader`.
pub uninterp spec fn reader_reads(reader: XmlReader) -> nat;

/// The document out of which `event` was read.
pub uninterp spec fn event_source(event: XmlEvent) -> Seq<u8>;

/// The number of the `read_event` call that produced `event`, counting
/// from zero.
pub uninterp spec fn event_index(event: XmlEvent) -> nat;

/// The bytes that `writer` holds.
pub uninterp spec fn writer_output(writer: XmlWriter) -> Seq<u8>;

/// What call number `i` of `Reader::read_event` gives on the document
/// `xml`, with whitespace around text trimmed: `None` for an error,
/// `Some(false)` for the end of the document, `Some(true)` for an event.
pub uninterp spec fn xml_read_at(xml: Seq<u8>, i: nat) -> Option<bool>;

/// What `BytesText::unescape_and_decode` gives for the event of call number
/// `i` on `xml`: `None` where the event is not text, `Some(None)` where the
/// text does not decode, and `Some(Some(t))` for the decoded text `t`.
pub uninterp spec fn xml_text_at(xml: Seq<u8>, i: nat) -> Option<Option<Seq<char>>>;

/// The bytes that `Writer::write_event` writes for the event of call number
/// `i` on `xml`.
pub uninterp spec fn xml_event_bytes(xml: Seq<u8>, i: nat) -> Seq<u8>;

/// The bytes that `Writer::write_event` writes for a text event made by
/// `BytesText::from_plain` from `content`.
pub uninterp spec fn xml_text_bytes(content: Seq<u8>) -> Seq<u8>;

/// What `Reader::buffer_position` gives on `xml` after `reads` calls of
/// `read_event`.
pub uninterp spec fn xml_position_at(xml: Seq<u8>, reads: nat) -> usize;

/// Makes a `quick_xml::Reader` over a copy of `xml` that trims the
/// whitespace around text (`trim_text(true)`). The contract names the
/// document and says that nothing has been read yet.
#[verifier::external_body]
fn xml_reader(xml: &[u8]) -> (res: XmlReader)
    ensures
        reader_input(res) == xml@,
        reader_reads(res) == 0,
{
    let mut reader = Reader::from_reader(std::io::Cursor::new(xml.to_vec()));
    reader.trim_text(true);
    XmlReader { reader }
}

/// Calls `Reader::read_event` and hands back the event as an owned value,
/// or `None` at the end of the document. The contract names the outcome
/// `xml_read_at` of the document and the number of the call, and tags the
/// event with both. It also claims that an event comes only from a call
/// numbered below the document's length: every event spans at least one
/// byte of the input, since the reader skips text that trimming empties.
#[verifier::external_body]
fn read_xml_event(reader: &mut XmlReader) -> (res: Result<Option<XmlEvent>, quick_xml::Error>)
    ensures
        reader_input(*final(reader)) == reader_input(*old(reader)),
        reader_reads(*final(reader)) == reader_reads(*old(reader)) + 1,
        match res {
            Err(_) => xml_read_at(reader_input(*old(reader)), reader_reads(*old(reader))) is None,
            Ok(None) => xml_read_at(reader_input(*old(reader)), reader_reads(*old(reader))) == Some(false),
            Ok(Some(e)) => {
                &&& xml_read_at(reader_input(*old(reader)), reader_reads(*old(reader))) == Some(true)
                &&& event_source(e) == reader_input(*old(reader))
                &&& event_index(e) == reader_reads(*old(reader))
                &&& reader_reads(*old(reader)) < reader_input(*old(reader)).len()
            },
        },
{
    let mut buf = Vec::new();
    match reader.reader.read_event(&mut buf) {
        Ok(Event::Eof) => Ok(None),
        Ok(event) => Ok(Some(XmlEvent { event: event.into_owned() })),
        Err(e) => Err(e),
    }
}

/// Calls `Reader::buffer_position`. The contract names it `xml_position_at`
/// of the document and the number of reads made.
#[verifier::external_body]
fn xml_position(reader: &XmlReader) -> (res: usize)
    ensures
        res == xml_position_at(reader_input(*reader), reader_reads(*reader)),
{
    reader.reader.buffer_position()
}

/// For a text event, calls `BytesText::unescape_and_decode`; `None` for any
/// other event. The contract names the outcome `xml_text_at` of the event's
/// document and number; without the `encoding` feature, decoding depends on
/// the event's bytes alone.
#[verifier::external_body]
fn event_text(event: &XmlEvent, reader: &XmlReader) -> (res: Option<Result<String, quick_xml::Error>>)
    ensures
        match res {
            None => xml_text_at(event_source(*event), event_index(*event)) is None,
            Some(Ok(t)) => xml_text_at(event_source(*event), event_index(*event)) == Some(Some(t@)),
            Some(Err(_)) => xml_text_at(event_source(*event), event_index(*event)) == Some(None::<Seq<char>>),
        },
{
    match &event.event {
        Event::Text(text) => Some(text.unescape_and_decode(&reader.reader)),
        _ => None,
    }
}

/// Makes a `quick_xml::Writer` into an empty `Vec`.
#[verifier::external_body]
fn xml_writer() -> (res: XmlWriter)
    ensures
        writer_output(res) == Seq::<u8>::empty(),
{
    XmlWriter { writer: Writer::new(Vec::new()) }
}

/// Calls `Writer::write_event` with an event that was read. Writing into a
/// `Vec` does not fail. The contract names the bytes appended
/// `xml_event_bytes` of the event's document and number.
#[verifier::external_body]
fn write_xml_event(writer: &mut XmlWriter, event: &XmlEvent) -> (res: Result<(), quick_xml::Error>)
    ensures
        res is Ok,
        writer_output(*final(writer)) == writer_output(*old(writer)) + xml_event_bytes(
            event_source(*event),
            event_index(*event),
        ),
{
    writer.writer.write_event(&event.event)
}

/// Calls `Writer::write_event` with the text event that
/// `BytesText::from_plain` makes of `content`. Writing into a `Vec` does not
/// fail. The contract names the bytes appended `xml_text_bytes` of the
/// content.
#[verifier::external_body]
fn write_xml_text(writer: &mut XmlWriter, content: &[u8]) -> (res: Result<(), quick_xml::Error>)
    ensures
        res is Ok,
        writer_output(*final(writer)) == writer_output(*old(writer)) + xml_text_bytes(content@),
{
    writer.writer.write_event(Event::Text(BytesText::from_plain(content)))
}

/// Calls `Writer::into_inner`, the bytes written.
#[verifier::external_body]
fn xml_written(writer: XmlWriter) -> (res: Vec<u8>)
    ensures
        res@ == writer_output(writer),
{
    writer.writer.into_inner()
}

/// Reads 0 to `n - 1` of `xml` each give an event whose text, if it is a
/// text event, decodes, and read `n` gives the end of the document.
pub open spec fn reads_events(xml: Seq<u8>, n: nat) -> bool {
    &&& forall|i: nat| i < n ==> #[trigger] xml_read_at(xml, i) == Some(true) && xml_text_at(xml, i) != Some(None::<Seq<char>>)
    &&& xml_read_at(xml, n) == Some(false)
}

/// `xml` reads to its end without an error.
pub open spec fn xml_parses(xml: Seq<u8>) -> bool {
    exists|n: nat| #[trigger] reads_events(xml, n)
}

/// A document reads to its end after one number of events only.
pub proof fn event_count_unique(xml: Seq<u8>, n1: nat, n2: nat)
    requires
        reads_events(xml, n1),
        reads_events(xml, n2),
    ensures
        n1 == n2,
{
    if n1 < n2 {
        assert(xml_read_at(xml, n1) == Some(true));
    } else if n2 < n1 {
        assert(xml_read_at(xml, n2) == Some(true));
    }
}

/// The texts of the first `n` events of `xml`, `None` for an event that is
/// not text.
pub open spec fn document_texts(xml: Seq<u8>, n: nat) -> Seq<Option<Seq<char>>> {
    Seq::new(
        n,
        |i: int|
            match xml_text_at(xml, i as nat) {
                Some(Some(t)) => Some(t),
                _ => None,
            },
    )
}

/// What the rewrite writes for event `i` of the `n` events of `xml`: the
/// text event made of `data` where the event receives the level data, the
/// event as read otherwise.
pub open spec fn written_event(xml: Seq<u8>, n: nat, data: Seq<u8>, i: int) -> Seq<u8> {
    if is_replaced(document_texts(xml, n), i) {
        xml_text_bytes(data)
    } else {
        xml_event_bytes(xml, i as nat)
    }
}

/// What the rewrite writes for the first `k` of the `n` events of `xml`.
pub open spec fn written_below(xml: Seq<u8>, n: nat, data: Seq<u8>, k: int) -> Seq<u8>
    decreases k,
{
    if k <= 0 {
        Seq::empty()
    } else {
        written_below(xml, n, data, k - 1) + written_event(xml, n, data, k - 1)
    }
}

/// The document `xml`, of `n` events, written back with the level data
/// `data` in the first text after the first `k4` key.
pub open spec fn rewritten_xml(xml: Seq<u8>, n: nat, data: Seq<u8>) -> Seq<u8> {
    written_below(xml, n, data, n as int)
}

/// The document `xml`, of `n` events, written back event for event.
pub open spec fn reserialized_below(xml: Seq<u8>, k: int) -> Seq<u8>
    decreases k,
{
    if k <= 0 {
        Seq::empty()
    } else {
        reserialized_below(xml, k - 1) + xml_event_bytes(xml, (k - 1) as nat)
    }
}

/// The bytes that the events `a` to `b - 1` of `xml` are written back as,
/// event for event.
pub open spec fn reserialized_between(xml: Seq<u8>, a: int, b: int) -> Seq<u8>
    decreases b - a,
{
    if b <= a {
        Seq::empty()
    } else {
        reserialized_between(xml, a, b - 1) + xml_event_bytes(xml, (b - 1) as nat)
    }
}

/// The total length of the bytes that the first `k` events of `xml` are
/// written back as.
pub open spec fn events_len(xml: Seq<u8>, k: int) -> int
    decreases k,
{
    if k <= 0 {
        0
    } else {
        events_len(xml, k - 1) + xml_event_bytes(xml, (k - 1) as nat).len()
    }
}

proof fn lemma_events_len_monotone(xml: Seq<u8>, i: int, k: int)
    requires
        0 <= i <= k,
    ensures
        0 <= events_len(xml, i) <= events_len(xml, k),
    decreases k,
{
    if k > i {
        lemma_events_len_monotone(xml, i, k - 1);
    } else if k > 0 {
        lemma_events_len_monotone(xml, 0, k - 1);
    }
}

/// Writing back the first `k` events of a document keeps every one of them:
/// the result is as long as their bytes together, and the bytes of event
/// `i` stand in it, unchanged, right after those of the events before it.
pub proof fn reserialized_holds_every_event(xml: Seq<u8>, k: int)
    requires
        0 <= k,
    ensures
        reserialized_below(xml, k).len() == events_len(xml, k),
        forall|i: int|
            0 <= i < k ==> reserialized_below(xml, k).subrange(events_len(xml, i), events_len(xml, i + 1))
                == #[trigger] xml_event_bytes(xml, i as nat),
    decreases k,
{
    if k > 0 {
        reserialized_holds_every_event(xml, k - 1);
        let r = reserialized_below(xml, k);
        let r0 = reserialized_below(xml, k - 1);
        assert forall|i: int| 0 <= i < k implies r.subrange(events_len(xml, i), events_len(xml, i + 1))
            == #[trigger] xml_event_bytes(xml, i as nat) by {
            lemma_events_len_monotone(xml, i, i + 1);
            if i < k - 1 {
                lemma_events_len_monotone(xml, i + 1, k - 1);
                assert(r.subrange(events_len(xml, i), events_len(xml, i + 1)) =~= r0.subrange(
                    events_len(xml, i),
                    events_len(xml, i + 1),
                ));
            } else {
                assert(r0.len() == events_len(xml, i));
                assert(r.subrange(events_len(xml, i), events_len(xml, i + 1)) =~= xml_event_bytes(xml, i as nat));
            }
        }
    }
}

/// The events after a point, written back, are what writing back the whole
/// prefix adds to the part before that point.
pub proof fn reserialized_splits(xml: Seq<u8>, a: int, b: int)
    requires
        0 <= a <= b,
    ensures
        reserialized_below(xml, b) == reserialized_below(xml, a) + reserialized_between(xml, a, b),
    decreases b,
{
    if b > a {
        reserialized_splits(xml, a, b - 1);
        assert(reserialized_below(xml, b) =~= reserialized_below(xml, a) + reserialized_between(xml, a, b));
    } else {
        assert(reserialized_between(xml, a, b) =~= Seq::<u8>::empty());
        assert(reserialized_below(xml, b) =~= reserialized_below(xml, a) + reserialized_between(xml, a, b));
    }
}

/// Where event `j` receives the level data, the rewrite writes the events
/// before it back as read, then the text made of the level data, then the
/// events after it back as read, up to the last one.
pub proof fn k4_replaces_only_its_event(xml: Seq<u8>, n: nat, data: Seq<u8>, j: int)
    requires
        is_replaced(document_texts(xml, n), j),
    ensures
        0 <= j < n,
        rewritten_xml(xml, n, data) == reserialized_below(xml, j) + xml_text_bytes(data)
            + reserialized_between(xml, j + 1, n as int),
{
    let ev = document_texts(xml, n);
    let i = choose|i: int| #[trigger] first_with(ev, i, k4_key()) && next_text(ev, i, j);
    assert(is_text_event(ev, j));
    lemma_written_before(xml, n, data, j, j);
    lemma_written_after(xml, n, data, j, n as int);
}

/// Before the event receiving the level data, the rewrite writes every
/// event back as read.
proof fn lemma_written_before(xml: Seq<u8>, n: nat, data: Seq<u8>, j: int, k: int)
    requires
        is_replaced(document_texts(xml, n), j),
        k <= j,
    ensures
        written_below(xml, n, data, k) == reserialized_below(xml, k),
    decreases k,
{
    if k > 0 {
        lemma_written_before(xml, n, data, j, k - 1);
        if is_replaced(document_texts(xml, n), k - 1) {
            at_most_one_replacement(document_texts(xml, n), j, k - 1);
        }
    }
}

/// From the event receiving the level data on, the rewrite writes the text
/// made of the data and then every later event back as read.
proof fn lemma_written_after(xml: Seq<u8>, n: nat, data: Seq<u8>, j: int, k: int)
    requires
        is_replaced(document_texts(xml, n), j),
        0 <= j < k,
    ensures
        written_below(xml, n, data, k) == reserialized_below(xml, j) + xml_text_bytes(data)
            + reserialized_between(xml, j + 1, k),
    decreases k,
{
    if k == j + 1 {
        lemma_written_before(xml, n, data, j, j);
        assert(reserialized_between(xml, j + 1, k) =~= Seq::<u8>::empty());
        assert(written_below(xml, n, data, k) =~= reserialized_below(xml, j) + xml_text_bytes(data)
            + reserialized_between(xml, j + 1, k));
    } else {
        lemma_written_after(xml, n, data, j, k - 1);
        if is_replaced(document_texts(xml, n), k - 1) {
            at_most_one_replacement(document_texts(xml, n), j, k - 1);
        }
        assert(written_below(xml, n, data, k) =~= reserialized_below(xml, j) + xml_text_bytes(data)
            + reserialized_between(xml, j + 1, k));
    }
}

/// Where no event receives the level data, the rewrite writes the document
/// back event for event, whatever the data.
pub proof fn no_k4_no_change(xml: Seq<u8>, n: nat, data: Seq<u8>)
    requires
        forall|j: int| !#[trigger] is_replaced(document_texts(xml, n), j),
    ensures
        rewritten_xml(xml, n, data) == reserialized_below(xml, n as int),
{
    lemma_no_change_below(xml, n, data, n as int);
}

proof fn lemma_no_change_below(xml: Seq<u8>, n: nat, data: Seq<u8>, k: int)
    requires
        forall|j: int| !#[trigger] is_replaced(document_texts(xml, n), j),
    ensures
        written_below(xml, n, data, k) == reserialized_below(xml, k),
    decreases k,
{
    if k > 0 {
        lemma_no_change_below(xml, n, data, k - 1);
        assert(!is_replaced(document_texts(xml, n), k - 1));
    }
}

/// The texts of the events that name the level, in order.
pub open spec fn announced_texts(ev: Seq<Option<Seq<char>>>) -> Seq<Seq<char>> {
    announced_below(ev, ev.len() as int).map_values(|j: int| ev[j]->0)
}

/// Every event that names the level is a text event below `n`.
proof fn lemma_announced_are_texts(ev: Seq<Option<Seq<char>>>, n: int)
    ensures
        forall|k: int| 0 <= k < announced_below(ev, n).len() ==> {
            let j = #[trigger] announced_below(ev, n)[k];
            0 <= j < n && is_text_event(ev, j)
        },
    decreases n,
{
    if n > 0 {
        lemma_announced_are_texts(ev, n - 1);
        let prev = announced_below(ev, n - 1);
        if is_announced(ev, n - 1) {
            let p = choose|p: int| #[trigger] has_text(ev, p, k2_key()) && before_replacement(ev, p) && next_text(ev, p, n - 1);
            assert(is_text_event(ev, n - 1));
            assert forall|k: int| 0 <= k < announced_below(ev, n).len() implies {
                let j = #[trigger] announced_below(ev, n)[k];
                0 <= j < n && is_text_event(ev, j)
            } by {
                if k < prev.len() {
                    assert(announced_below(ev, n)[k] == prev[k]);
                }
            }
        }
    }
}

/// The save file's XML with the level data in place, and the names of the
/// levels that the rewrite reported.
pub struct XmlRewrite {
    pub xml: Vec<u8>,
    pub level_names: Vec<String>,
}

/// The rewrite of `xml` with the level data of `level` cannot go through
/// for want of memory: the level data goes in and would be too long.
pub open spec fn level_data_too_large(xml: Seq<u8>, n: nat, level: Seq<u8>) -> bool {
    &&& base64_too_large(level_gzip(level).len() as int)
    &&& exists|j: int| #[trigger] is_replaced(document_texts(xml, n), j)
}

/// Reads the XML `xml`, puts the level data of `level` into the first text
/// after the first `k4` key, and collects the text after each `k2` key that
/// comes before it. Every other event is written back as it was read.
pub fn rewrite_level_xml(xml: &[u8], level: &str) -> (res: Result<XmlRewrite, SaveError>)
    ensures
        match res {
            Ok(r) => exists|n: nat|
                {
                    &&& #[trigger] reads_events(xml@, n)
                    &&& !level_data_too_large(xml@, n, level.spec_bytes())
                    &&& r.xml@ == rewritten_xml(xml@, n, level_data_for(level.spec_bytes()))
                    &&& r.level_names@.map_values(|s: String| s@) == announced_texts(document_texts(xml@, n))
                },
            Err(SaveError::Xml(_)) => !xml_parses(xml@),
            Err(SaveError::TooLarge) => exists|n: nat|
                #[trigger] reads_events(xml@, n) && level_data_too_large(xml@, n, level.spec_bytes()),
            Err(_) => false,
        },
{
    let mut reader = xml_reader(xml);
    let mut events: Vec<XmlEvent> = Vec::new();
    let mut texts: Vec<Option<String>> = Vec::new();
    let mut finished = false;
    while !finished
        invariant
            reader_input(reader) == xml@,
            events.len() == texts.len(),
            events.len() <= xml@.len(),
            !finished ==> reader_reads(reader) == events.len(),
            finished ==> xml_read_at(xml@, events.len() as nat) == Some(false),
            forall|i: int| 0 <= i < events.len() ==> {
                &&& event_source(#[trigger] events@[i]) == xml@
                &&& event_index(events@[i]) == i
            },
            forall|i: nat| i < events.len() ==> {
                &&& #[trigger] xml_read_at(xml@, i) == Some(true)
                &&& xml_text_at(xml@, i) != Some(None::<Seq<char>>)
            },
            text_views(texts@) =~= document_texts(xml@, events.len() as nat),
        decreases xml@.len() - events.len() + (if finished { 0int } else { 1int }),
    {
        let k = events.len();
        match read_xml_event(&mut reader) {
            Err(_) => {
                proof {
                    lemma_unparsable(xml@, k as nat);
                }
                return Err(SaveError::Xml(xml_position(&reader)));
            },
            Ok(None) => {
                finished = true;
            },
            Ok(Some(event)) => {
                let text = match event_text(&event, &reader) {
                    None => None,
                    Some(Ok(t)) => Some(t),
                    Some(Err(_)) => {
                        proof {
                            lemma_unparsable(xml@, k as nat);
                        }
                        return Err(SaveError::Xml(xml_position(&reader)));
                    },
                };
                let ghost old_texts = texts@;
                texts.push(text);
                events.push(event);
                proof {
                    assert(text_views(texts@) =~= document_texts(xml@, (k + 1) as nat)) by {
                        assert forall|i: int| 0 <= i < k + 1 implies text_views(texts@)[i]
                            == document_texts(xml@, (k + 1) as nat)[i] by {
                            if i < k {
                                assert(texts@[i] == old_texts[i]);
                                assert(text_views(old_texts)[i] == document_texts(xml@, k as nat)[i]);
                            }
                        }
                    }
                }
            },
        }
    }
    let n = events.len();
    let ghost ev = document_texts(xml@, n as nat);
    assert(reads_events(xml@, n as nat));
    let plan = plan_level_rewrite(&texts);
    let mut writer = xml_writer();
    let ghost data_spec = level_data_for(level.spec_bytes());
    for i in 0..n
        invariant
            n == events.len(),
            reads_events(xml@, n as nat),
            data_spec == level_data_for(level.spec_bytes()),
            ev == document_texts(xml@, n as nat),
            text_views(texts@) == ev,
            forall|i: int| 0 <= i < events.len() ==> {
                &&& event_source(#[trigger] events@[i]) == xml@
                &&& event_index(events@[i]) == i
            },
            match plan.replace {
                Some(j) => is_replaced(ev, j as int),
                None => forall|j: int| !#[trigger] is_replaced(ev, j),
            },
            writer_output(writer) == written_below(xml@, n as nat, data_spec, i as int),
            plan.replace matches Some(j) && j < i ==> !base64_too_large(level_gzip(level.spec_bytes()).len() as int),
    {
        let is_target = match plan.replace {
            Some(r) => r == i,
            None => false,
        };
        proof {
            if let Some(r) = plan.replace {
                if is_replaced(ev, i as int) {
                    at_most_one_replacement(ev, r as int, i as int);
                }
            }
            assert(is_target == is_replaced(ev, i as int));
        }
        if is_target {
            let data = match encode_level_data(level) {
                Ok(d) => d,
                Err(e) => {
                    proof {
                        assert(level_data_too_large(xml@, n as nat, level.spec_bytes()));
                    }
                    return Err(e);
                },
            };
            let ghost before = writer_output(writer);
            let _ = write_xml_text(&mut writer, data.as_slice());
            assert(data@ == data_spec);
            assert(writer_output(writer) == before + xml_text_bytes(data_spec));
            assert(written_event(xml@, n as nat, data_spec, i as int) == xml_text_bytes(data_spec));
        } else {
            let ghost before = writer_output(writer);
            let e = &events[i];
            assert(event_source(*e) == xml@ && event_index(*e) == i);
            let _ = write_xml_event(&mut writer, e);
            assert(writer_output(writer) == before + xml_event_bytes(xml@, i as nat));
            assert(written_event(xml@, n as nat, data_spec, i as int) == xml_event_bytes(xml@, i as nat));
        }
        assert(written_below(xml@, n as nat, data_spec, i + 1) == written_below(xml@, n as nat, data_spec, i as int)
            + written_event(xml@, n as nat, data_spec, i as int));
    }
    proof {
        lemma_announced_are_texts(ev, ev.len() as int);
    }
    let mut level_names: Vec<String> = Vec::new();
    let m = plan.announce.len();
    for k in 0..m
        invariant
            m == plan.announce.len(),
            ev == text_views(texts@),
            ev.len() == texts@.len(),
            plan.announce@.map_values(|j: usize| j as int) == announced_below(ev, ev.len() as int),
            forall|q: int| 0 <= q < announced_below(ev, ev.len() as int).len() ==> {
                let j = #[trigger] announced_below(ev, ev.len() as int)[q];
                0 <= j < ev.len() && is_text_event(ev, j)
            },
            level_names@.map_values(|s: String| s@) =~= announced_texts(ev).take(k as int),
    {
        let j = plan.announce[k];
        assert(plan.announce@.map_values(|j: usize| j as int)[k as int] == j as int);
        assert(ev[j as int] == match texts@[j as int] {
            Some(s) => Some(s@),
            None => None,
        });
        let name = texts[j].clone().unwrap();
        assert(name@ == ev[j as int]->0);
        assert(announced_texts(ev)[k as int] == ev[j as int]->0);
        let ghost before = level_names@.map_values(|s: String| s@);
        level_names.push(name);
        assert(level_names@.map_values(|s: String| s@) =~= before.push(name@));
        assert(announced_texts(ev).take(k + 1) =~= announced_texts(ev).take(k as int).push(name@));
    }
    assert(announced_texts(ev).take(m as int) =~= announced_texts(ev));
    let rewritten = xml_written(writer);
    proof {
        if level_data_too_large(xml@, n as nat, level.spec_bytes()) {
            let j = choose|j: int| #[trigger] is_replaced(ev, j);
            assert(is_text_event(ev, j));
            if let Some(r) = plan.replace {
                at_most_one_replacement(ev, r as int, j);
            }
        }
    }
    let res = XmlRewrite { xml: rewritten, level_names };
    assert(reads_events(xml@, n as nat));
    assert(res.xml@ == rewritten_xml(xml@, n as nat, level_data_for(level.spec_bytes())));
    assert(res.level_names@.map_values(|s: String| s@) == announced_texts(document_texts(xml@, n as nat)));
    Ok(res)
}

/// Where read `k` fails, or its text does not decode, after `k` reads that
/// each gave an event, the document does not read to its end.
proof fn lemma_unparsable(xml: Seq<u8>, k: nat)
    requires
        forall|i: nat| i < k ==> #[trigger] xml_read_at(xml, i) == Some(true),
        xml_read_at(xml, k) is None || (xml_read_at(xml, k) == Some(true) && xml_text_at(xml, k) == Some(
            None::<Seq<char>>,
        )),
    ensures
        !xml_parses(xml),
{
    if xml_parses(xml) {
        let n = choose|n: nat| #[trigger] reads_events(xml, n);
        if n < k {
            assert(xml_read_at(xml, n) == Some(true));
        } else if n > k {
            assert(xml_read_at(xml, k) == Some(true) && xml_text_at(xml, k) != Some(None::<Seq<char>>));
        }
    }
}

} // verus!
