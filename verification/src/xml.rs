//! The events of an XML document, as quick-xml reads them, with character data gathered.
use quick_xml::events::Event;
use quick_xml::Reader;
use vstd::prelude::*;

use crate::text::{append_chars, chars_of, lemma_trim_idempotent, string_of, trim, trim_chars};

verus! {

/// An event of an XML reader, as far as the parsers here look at it.
pub enum XmlEvent {
    /// A start tag, with its name.
    Start(String),
    /// An end tag, with its name.
    End(String),
    /// Character data (not unescaped).
    Text(String),
    /// A reference such as `&amp;`, with its name (`amp`).
    Ref(String),
    /// The end of the document.
    Eof,
    /// A malformed document: the reader's message.
    Error(String),
    /// Anything else (empty tags, comments, declarations, ...).
    Other,
}

/// An event with its strings taken as character sequences.
pub enum EventView {
    Start(Seq<char>),
    End(Seq<char>),
    Text(Seq<char>),
    Ref(Seq<char>),
    Eof,
    Error(Seq<char>),
    Other,
}

pub open spec fn event_view(e: XmlEvent) -> EventView {
    match e {
        XmlEvent::Start(n) => EventView::Start(n@),
        XmlEvent::End(n) => EventView::End(n@),
        XmlEvent::Text(t) => EventView::Text(t@),
        XmlEvent::Ref(n) => EventView::Ref(n@),
        XmlEvent::Eof => EventView::Eof,
        XmlEvent::Error(m) => EventView::Error(m@),
        XmlEvent::Other => EventView::Other,
    }
}

pub open spec fn event_views(es: Seq<XmlEvent>) -> Seq<EventView> {
    es.map_values(|e: XmlEvent| event_view(e))
}

/// The end of the document, or an error: the reader gives nothing after it.
pub open spec fn is_stop(e: EventView) -> bool {
    e is Eof || e is Error
}

/// A reading that ends with the end of the document or an error, and with nothing that
/// stops before.
pub open spec fn ends_in_stop(es: Seq<EventView>) -> bool {
    &&& es.len() > 0
    &&& is_stop(es.last())
    &&& forall|i: int| 0 <= i < es.len() - 1 ==> !is_stop(#[trigger] es[i])
}

#[verifier::external_type_specification]
#[verifier::external_body]
#[verifier::reject_recursive_types(R)]
pub struct ExXmlReader<R>(Reader<R>);

/// The events that quick-xml reads from a document, up to and including the end of the
/// document or the first error.
pub uninterp spec fn document_events(text: Seq<char>) -> Seq<EventView>;

/// The events that a reader has still to give.
pub uninterp spec fn pending_events(r: Reader<&[u8]>) -> Seq<EventView>;

/// `Reader::from_str`, with the reader's default configuration. The reader will give the
/// document's events (named by `document_events`, not stated), and they end with the end of
/// the document or an error.
#[verifier::external_body]
fn xml_reader<'a>(text: &'a str) -> (r: Reader<&'a [u8]>)
    ensures
        pending_events(r) == document_events(text@),
        ends_in_stop(pending_events(r)),
{
    Reader::from_str(text)
}

/// `Reader::read_event`: the first of the events still to come, its variant told apart and
/// its name or text taken as a string; the reader moves past it.
#[verifier::external_body]
fn xml_next(r: &mut Reader<&[u8]>) -> (e: XmlEvent)
    ensures
        pending_events(*old(r)).len() > 0 ==> event_view(e) == pending_events(*old(r))[0]
            && pending_events(*final(r)) == pending_events(*old(r)).drop_first(),
{
    match r.read_event() {
        Ok(Event::Start(e)) => XmlEvent::Start(e.name().as_ref().to_string()),
        Ok(Event::End(e)) => XmlEvent::End(e.name().as_ref().to_string()),
        Ok(Event::Text(e)) => XmlEvent::Text(e.into_inner().into_owned()),
        Ok(Event::GeneralRef(e)) => XmlEvent::Ref(e.into_inner().into_owned()),
        Ok(Event::Eof) => XmlEvent::Eof,
        Err(e) => XmlEvent::Error(format!("{e:?}")),
        Ok(_) => XmlEvent::Other,
    }
}

/// `Reader::buffer_position`: how far the reader has read. Nothing is stated of it.
#[verifier::external_body]
fn xml_position(r: &Reader<&[u8]>) -> u64 {
    r.buffer_position()
}

fn is_stop_exec(e: &XmlEvent) -> (b: bool)
    ensures
        b == is_stop(event_view(*e)),
{
    match e {
        XmlEvent::Eof => true,
        XmlEvent::Error(_) => true,
        _ => false,
    }
}

/// The events that quick-xml reads from a document, up to and including the end of the
/// document or the first error, and how far the reader got.
pub fn read_events(text: &str) -> (r: (Vec<XmlEvent>, u64))
    ensures
        event_views(r.0@) == document_events(text@),
{
    let mut reader = xml_reader(text);
    let mut events: Vec<XmlEvent> = Vec::new();
    loop
        invariant
            event_views(events@) + pending_events(reader) == document_events(text@),
            ends_in_stop(pending_events(reader)),
        decreases pending_events(reader).len(),
    {
        let ghost before = pending_events(reader);
        let ev = xml_next(&mut reader);
        let stop = is_stop_exec(&ev);
        let ghost evs = event_views(events@);
        events.push(ev);
        assert(event_views(events@) =~= evs.push(before[0]));
        if stop {
            assert(before.len() == 1) by {
                if before.len() > 1 {
                    assert(!is_stop(before[0]));
                }
            }
            assert(event_views(events@) =~= evs + before);
            let pos = xml_position(&reader);
            return (events, pos);
        }
        let ghost after = pending_events(reader);
        assert(after =~= before.drop_first());
        assert(before.len() > 1);
        assert(ends_in_stop(after)) by {
            assert(after.last() == before.last());
            assert forall|i: int| 0 <= i < after.len() - 1 implies !is_stop(#[trigger] after[i]) by {
                assert(after[i] == before[i + 1]);
            }
        }
        assert(evs + before =~= evs.push(before[0]) + after);
    }
}

// ---------------------------------------------------------------------------
// Gathering character data
// ---------------------------------------------------------------------------

/// The text that a reference stands for in the source: `&`, its name, `;`.
pub open spec fn ref_text(n: Seq<char>) -> Seq<char> {
    seq!['&'] + n + seq![';']
}

/// Events gathered so far, and the character data of the run being read.
pub struct GatherState {
    pub out: Seq<EventView>,
    pub text: Seq<char>,
}

/// A run of character data ends: trimmed, it becomes one `Text` unless it is blank.
pub open spec fn flush_run(out: Seq<EventView>, text: Seq<char>) -> Seq<EventView> {
    if trim(text).len() > 0 {
        out.push(EventView::Text(trim(text)))
    } else {
        out
    }
}

pub open spec fn gather_step(st: GatherState, e: EventView) -> GatherState {
    match e {
        EventView::Text(t) => GatherState { text: st.text + t, ..st },
        EventView::Ref(n) => GatherState { text: st.text + ref_text(n), ..st },
        _ => GatherState { out: flush_run(st.out, st.text).push(e), text: seq![] },
    }
}

pub open spec fn gather_run(es: Seq<EventView>) -> GatherState
    decreases es.len(),
{
    if es.len() == 0 {
        GatherState { out: seq![], text: seq![] }
    } else {
        gather_step(gather_run(es.drop_last()), es.last())
    }
}

/// Events with their character data gathered: text and the references within it (kept as
/// written) make one `Text`, trimmed, and blank text is left out.
pub open spec fn gathered(es: Seq<EventView>) -> Seq<EventView> {
    flush_run(gather_run(es).out, gather_run(es).text)
}

pub fn ref_chars(n: &String) -> (r: Vec<char>)
    ensures
        r@ == ref_text(n@),
{
    let mut r: Vec<char> = Vec::new();
    r.push('&');
    append_chars(&mut r, &chars_of(n.as_str()));
    r.push(';');
    r
}

fn flush_run_exec(out: &mut Vec<XmlEvent>, text: &Vec<char>)
    ensures
        event_views(final(out)@) == flush_run(event_views(old(out)@), text@),
{
    let t = trim_chars(text);
    if t.len() > 0 {
        let s = string_of(&t);
        let ghost before = event_views(out@);
        out.push(XmlEvent::Text(s));
        assert(event_views(out@) =~= before.push(EventView::Text(trim(text@))));
    }
}

fn copy_event(e: &XmlEvent) -> (r: XmlEvent)
    ensures
        event_view(r) == event_view(*e),
{
    match e {
        XmlEvent::Start(n) => XmlEvent::Start(n.clone()),
        XmlEvent::End(n) => XmlEvent::End(n.clone()),
        XmlEvent::Text(t) => XmlEvent::Text(t.clone()),
        XmlEvent::Ref(n) => XmlEvent::Ref(n.clone()),
        XmlEvent::Eof => XmlEvent::Eof,
        XmlEvent::Error(m) => XmlEvent::Error(m.clone()),
        XmlEvent::Other => XmlEvent::Other,
    }
}

/// Gathers the character data of events: text and the references within it (kept as
/// written) make one `Text`, trimmed, and blank text is left out.
pub fn gather_text(raw: &Vec<XmlEvent>) -> (r: Vec<XmlEvent>)
    ensures
        event_views(r@) == gathered(event_views(raw@)),
{
    let ghost es = event_views(raw@);
    let mut out: Vec<XmlEvent> = Vec::new();
    let mut text: Vec<char> = Vec::new();
    let mut i: usize = 0;
    assert(es.take(0) =~= Seq::<EventView>::empty());
    while i < raw.len()
        invariant
            i <= raw.len(),
            es == event_views(raw@),
            ({
                let st = gather_run(es.take(i as int));
                &&& event_views(out@) == st.out
                &&& text@ == st.text
            }),
        decreases raw.len() - i,
    {
        assert(es.take(i + 1).drop_last() =~= es.take(i as int));
        assert(es.take(i + 1).last() == event_view(raw@[i as int]));
        match &raw[i] {
            XmlEvent::Text(t) => {
                append_chars(&mut text, &chars_of(t.as_str()));
            },
            XmlEvent::Ref(n) => {
                append_chars(&mut text, &ref_chars(n));
            },
            other => {
                let e = copy_event(other);
                flush_run_exec(&mut out, &text);
                let ghost before = event_views(out@);
                out.push(e);
                assert(event_views(out@) =~= before.push(event_view(raw@[i as int])));
                text = Vec::new();
            },
        }
        i = i + 1;
    }
    assert(es.take(i as int) =~= es);
    flush_run_exec(&mut out, &text);
    out
}

/// The events of an XML document as the parsers get them: as quick-xml reads them, up to
/// and including the end of the document or the first error, with their character data
/// gathered; and how far the reader got.
pub fn xml_events(text: &str) -> (r: (Vec<XmlEvent>, u64))
    ensures
        event_views(r.0@) == gathered(document_events(text@)),
{
    let (raw, pos) = read_events(text);
    (gather_text(&raw), pos)
}

} // verus!
