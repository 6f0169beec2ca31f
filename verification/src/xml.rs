//! The boundary to the quick-xml crate, and the event type the streaming
//! aggregator consumes.  The reader is opaque: each call to the wrapper
//! hands back one tokenized markup event, converted into the library's own
//! closed event type; everything done with the events is verified.

use vstd::prelude::*;

use quick_xml::Reader;
use quick_xml::events::Event;
use quick_xml::events::Event::{Empty, End, Eof, GeneralRef, Start, Text};
use std::io::Cursor;

verus! {

#[verifier::external_type_specification]
#[verifier::external_body]
#[verifier::reject_recursive_types(R)]
pub struct ExReader<R>(Reader<R>);

#[verifier::external_type_specification]
#[verifier::external_body]
#[verifier::reject_recursive_types(T)]
pub struct ExCursor<T>(Cursor<T>);

/// One markup event of a streamed XHTML document: an opening tag, a closing
/// tag, a self-closing tag, character data, an entity or character
/// reference, an event that carries no text (comment, CDATA, declaration,
/// processing instruction, doctype), or the end of the input.
#[derive(Debug)]
pub enum XmlEvent {
    Start(String),
    End(String),
    Empty(String),
    Text(String),
    EntityRef(String),
    Skip,
    Eof,
}

/// The abstract value of an `XmlEvent`.
pub enum XmlEventView {
    Start(Seq<char>),
    End(Seq<char>),
    Empty(Seq<char>),
    Text(Seq<char>),
    EntityRef(Seq<char>),
    Skip,
    Eof,
}

impl View for XmlEvent {
    type V = XmlEventView;

    open spec fn view(&self) -> XmlEventView {
        match self {
            XmlEvent::Start(name) => XmlEventView::Start(name@),
            XmlEvent::End(name) => XmlEventView::End(name@),
            XmlEvent::Empty(name) => XmlEventView::Empty(name@),
            XmlEvent::Text(text) => XmlEventView::Text(text@),
            XmlEvent::EntityRef(name) => XmlEventView::EntityRef(name@),
            XmlEvent::Skip => XmlEventView::Skip,
            XmlEvent::Eof => XmlEventView::Eof,
        }
    }
}

impl DeepView for XmlEvent {
    type V = XmlEventView;

    open spec fn deep_view(&self) -> XmlEventView {
        self.view()
    }
}

/// What tokenizing a byte sequence yields, with the crate's default
/// configuration: the markup events handed out before the tokenizer
/// stops, and how it stops -- `None` for a clean end of the input,
/// `Some(message)` for a byte sequence or token it cannot interpret.
/// Tokenization of fixed bytes depends on those bytes alone.
pub uninterp spec fn xml_tokenize_of(data: Seq<u8>) -> (Seq<XmlEventView>, Option<Seq<char>>);

/// What a reader still has to hand out: the remaining events and the way
/// its stream ends.
pub uninterp spec fn reader_pending_of(rdr: Reader<Cursor<Vec<u8>>>) -> (
    Seq<XmlEventView>,
    Option<Seq<char>>,
);

/// Relies on `quick_xml::Reader::from_reader`: makes a streaming reader
/// over the document bytes, with the crate's default configuration.  The
/// fresh reader has the whole tokenization of the bytes ahead of it.
#[verifier::external_body]
pub(crate) fn reader_from_bytes(data: Vec<u8>) -> (r: Reader<Cursor<Vec<u8>>>)
    ensures
        reader_pending_of(r) == xml_tokenize_of(data@),
{
    Reader::from_reader(Cursor::new(data))
}

/// Relies on `quick_xml::Reader::read_event_into`: tokenizes the next
/// markup event.  Tag names and reference names are handed over verbatim;
/// character data is handed over with the crate's end-of-line
/// normalization; byte sequences the tokenizer cannot interpret are
/// reported with the crate's message.  Each call hands out the head of
/// the pending stream and leaves the tail; an exhausted stream reports
/// its end marker: the end-of-input event, or the failure message.
/// Nothing is assumed of a reader touched again after a failure.
#[verifier::external_body]
pub(crate) fn next_xml_event(rdr: &mut Reader<Cursor<Vec<u8>>>) -> (r: Result<XmlEvent, String>)
    ensures
        ({
            let (evs, term) = reader_pending_of(*old(rdr));
            evs.len() > 0 ==> (r matches Ok(ev) && ev@ == evs[0] && !(evs[0] is Eof)
                && reader_pending_of(*final(rdr)) == (evs.drop_first(), term))
        }),
        ({
            let (evs, term) = reader_pending_of(*old(rdr));
            evs.len() == 0 && term is None ==> (r matches Ok(ev) && ev@ is Eof
                && reader_pending_of(*final(rdr)) == (Seq::<XmlEventView>::empty(), None::<
            Seq<char>>))
        }),
        ({
            let (evs, term) = reader_pending_of(*old(rdr));
            evs.len() == 0 ==> (term matches Some(msg) ==> (r matches Err(m) && m@ == msg))
        }),
{
    let mut buf: Vec<u8> = Vec::new();
    let ev: Event = match rdr.read_event_into(&mut buf) {
        Ok(ev) => ev,
        Err(e) => return Err(e.to_string()),
    };
    Ok(match ev {
        Start(e) => XmlEvent::Start(e.name().as_ref().into()),
        End(e) => XmlEvent::End(e.name().as_ref().into()),
        Empty(e) => XmlEvent::Empty(e.name().as_ref().into()),
        Text(t) => XmlEvent::Text(t.xml10_content().into()),
        GeneralRef(r) => XmlEvent::EntityRef(r.xml10_content().into()),
        Eof => XmlEvent::Eof,
        _ => XmlEvent::Skip,
    })
}

/// Relies on `char::from_u32`: returns the character with the given code
/// for every Unicode scalar value (anything that is neither a surrogate
/// code nor above the highest code point), and `None` otherwise.
#[verifier::external_body]
pub(crate) fn char_from_u32(v: u32) -> (r: Option<char>)
    ensures
        r is Some <==> (v < 0xD800 || (0xE000 <= v && v <= 0x10FFFF)),
        r matches Some(c) ==> c as int == v as int,
{
    char::from_u32(v)
}

} // verus!
