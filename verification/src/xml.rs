//! Trusted boundary around quick_xml: the pull reader, the indenting sink,
//! and the element type, each behind a small contract.

use vstd::prelude::*;
use crate::attrs::Attr;
use crate::router::{GEvent, WEvent};

verus! {

#[verifier::external_type_specification]
#[verifier::external_body]
#[verifier::reject_recursive_types(R)]
pub struct ExReader<R>(quick_xml::Reader<R>);

#[verifier::external_type_specification]
#[verifier::external_body]
#[verifier::reject_recursive_types(W)]
pub struct ExWriter<W>(quick_xml::Writer<W>);

#[verifier::external_type_specification]
#[verifier::external_body]
pub struct ExEvent<'a>(quick_xml::events::Event<'a>);

#[verifier::external_type_specification]
#[verifier::external_body]
pub struct ExBytesStart<'a>(quick_xml::events::BytesStart<'a>);

/// The name of an element-open tag.
pub uninterp spec fn start_name(e: quick_xml::events::BytesStart<'static>) -> Seq<char>;

/// The attributes an element-open tag holds, in order, each as its key and
/// its value with XML escapes resolved; meaningful where the tag is
/// readable.
pub uninterp spec fn start_attrs(e: quick_xml::events::BytesStart<'static>) -> Seq<
    (Seq<char>, Seq<char>),
>;

/// Whether the tag's attributes parse and unescape at all: quick_xml refuses
/// malformed or duplicated attributes and malformed escape sequences.
pub uninterp spec fn start_readable(e: quick_xml::events::BytesStart<'static>) -> bool;

/// A token standing for the whole raw payload of an element-open tag.
pub uninterp spec fn start_token(e: quick_xml::events::BytesStart<'static>) -> int;

/// A token standing for the whole raw payload of a self-closing tag.
pub uninterp spec fn empty_token(e: quick_xml::events::BytesStart<'static>) -> int;

/// Whether the tag's raw text is the canonical rendering of its name and
/// attribute list, as the tag-building wrappers produce it; only for such a
/// tag do name and attributes determine the written bytes.
pub uninterp spec fn canonical(e: quick_xml::events::BytesStart<'static>) -> bool;

/// An event as the model sees it: a close or other event under its payload
/// token.
pub uninterp spec fn event_model(e: quick_xml::events::Event<'static>) -> GEvent;

/// The events that reading a document yields, in order, up to the end of the
/// document or the first structural failure.
pub uninterp spec fn doc_events(input: Seq<u8>) -> Seq<GEvent>;

/// Whether reading a document ends in a structural failure instead of the
/// end of the stream.
pub uninterp spec fn doc_fails(input: Seq<u8>) -> bool;

/// The events a reader has still to yield.
pub uninterp spec fn remaining(r: quick_xml::Reader<&[u8]>) -> Seq<GEvent>;

/// Whether a reader ends in a structural failure after its remaining events.
pub uninterp spec fn rd_fails(r: quick_xml::Reader<&[u8]>) -> bool;

/// The bytes that writing a sequence of output events produces, under the
/// sink's one-tab-per-level indentation: a passed event writes its payload,
/// a built tag writes its name and attribute list in canonical form.
pub uninterp spec fn serialized(events: Seq<WEvent>) -> Seq<u8>;

/// The payload tag of a model event.
pub open spec fn gtag(g: GEvent) -> int {
    match g {
        GEvent::Open { tag, .. } => tag,
        GEvent::Empty { tag, .. } => tag,
        GEvent::Close { tag } => tag,
        GEvent::Other { tag } => tag,
    }
}

/// One step of the pull reader, with owned data.
pub enum ReadStep {
    /// An element-open tag: its name, the byte position of the cursor after
    /// the tag, and the tag itself.
    Open(String, u64, quick_xml::events::BytesStart<'static>),
    /// A self-closing element tag, with the same parts.
    SelfClosed(String, u64, quick_xml::events::BytesStart<'static>),
    /// An element-close tag, kept whole for re-emission.
    Close(quick_xml::events::Event<'static>),
    /// Any other event (text, comment, declaration, ...), kept whole for
    /// re-emission.
    Other(quick_xml::events::Event<'static>),
    /// The end of the document.
    Eof,
    /// The reader reports a malformed document; carries its message.
    Failed(String),
}

/// Relies on `quick_xml::Reader::from_reader`: a pull parser over a byte
/// slice, with the default configuration; what it will yield is a function
/// of the input bytes, and every event but the final end-of-stream consumes
/// at least one byte of it.
#[verifier::external_body]
pub(crate) fn new_reader<'a>(input: &'a [u8]) -> (r: quick_xml::Reader<&'a [u8]>)
    ensures
        remaining(r) == doc_events(input@),
        rd_fails(r) == doc_fails(input@),
        remaining(r).len() <= input@.len() + 1,
{
    quick_xml::Reader::from_reader(input)
}

/// Relies on `quick_xml::Reader::read_event` (and `buffer_position`): hands
/// out the reader's next event — the head of what remained — leaving the
/// rest; the end of the stream and a failure come only once the events are
/// exhausted.
#[verifier::external_body]
pub(crate) fn read_step<'a>(r: &mut quick_xml::Reader<&'a [u8]>) -> (s: ReadStep)
    ensures
        (s matches ReadStep::Open(name, pos, elem) ==> remaining(*old(r)).len() > 0 && remaining(
            *old(r),
        )[0] == (GEvent::Open {
            name: name@,
            attrs: start_attrs(elem),
            pos: pos as int,
            tag: start_token(elem),
            ok: start_readable(elem),
        }) && name@ == start_name(elem) && remaining(*final(r)) == remaining(
            *old(r),
        ).drop_first() && rd_fails(*final(r)) == rd_fails(*old(r))),
        (s matches ReadStep::SelfClosed(name, pos, elem) ==> remaining(*old(r)).len() > 0
            && remaining(*old(r))[0] == (GEvent::Empty {
            name: name@,
            attrs: start_attrs(elem),
            pos: pos as int,
            tag: empty_token(elem),
            ok: start_readable(elem),
        }) && name@ == start_name(elem) && remaining(*final(r)) == remaining(
            *old(r),
        ).drop_first() && rd_fails(*final(r)) == rd_fails(*old(r))),
        (s matches ReadStep::Close(ev) ==> remaining(*old(r)).len() > 0 && remaining(*old(r))[0]
            == event_model(ev) && event_model(ev) is Close && remaining(*final(r)) == remaining(
            *old(r),
        ).drop_first() && rd_fails(*final(r)) == rd_fails(*old(r))),
        (s matches ReadStep::Other(ev) ==> remaining(*old(r)).len() > 0 && remaining(*old(r))[0]
            == event_model(ev) && event_model(ev) is Other && remaining(*final(r)) == remaining(
            *old(r),
        ).drop_first() && rd_fails(*final(r)) == rd_fails(*old(r))),
        (s is Eof ==> remaining(*old(r)).len() == 0 && !rd_fails(*old(r))),
        (s matches ReadStep::Failed(_) ==> remaining(*old(r)).len() == 0 && rd_fails(*old(r))),
{
    match r.read_event() {
        Ok(quick_xml::events::Event::Eof) => ReadStep::Eof,
        Ok(quick_xml::events::Event::Start(e)) => ReadStep::Open(
            e.name().as_ref().to_owned(), r.buffer_position(), e.into_owned(),
        ),
        Ok(quick_xml::events::Event::Empty(e)) => ReadStep::SelfClosed(
            e.name().as_ref().to_owned(), r.buffer_position(), e.into_owned(),
        ),
        Ok(quick_xml::events::Event::End(e)) => ReadStep::Close(
            quick_xml::events::Event::End(e.into_owned()),
        ),
        Ok(ev) => ReadStep::Other(ev.into_owned()),
        Err(err) => ReadStep::Failed(format!("{}", err)),
    }
}

/// Relies on `BytesStart::attributes` and `quick_xml::escape::unescape`:
/// yields the tag's attributes in order, each with its unescaped value, or
/// an error on malformed or duplicated attributes or a malformed escape.
/// A yielded key is nonempty and free of whitespace, and free of `=` after
/// its first character — the scanner takes the first character unchecked
/// and ends the name token at the first `=` or whitespace after it — and no
/// two yielded keys are equal, since the iterator checks for duplicates.
#[verifier::external_body]
pub(crate) fn start_attr_list(e: &quick_xml::events::BytesStart<'static>) -> (r: Result<
    Vec<Attr>,
    String,
>)
    ensures
        r is Ok <==> start_readable(*e),
        (r matches Ok(v) ==> crate::attrs::models(v@) == start_attrs(*e)),
        (r matches Ok(v) ==> crate::attrs::wf_keys(crate::attrs::models(v@))
            && crate::attrs::distinct_keys(crate::attrs::models(v@))),
{
    let mut out = Vec::new();
    for a in e.attributes() {
        let a = a.map_err(|err| format!("{}", err))?;
        let v = quick_xml::escape::unescape(&a.value).map_err(|err| format!("{}", err))?;
        out.push(Attr { key: a.key.as_ref().to_owned(), value: v.into_owned() });
    }
    Ok(out)
}

/// Relies on `BytesStart::new`: an element-open tag with the given name and
/// no attributes yet, in canonical form.
#[verifier::external_body]
pub(crate) fn new_start(name: &String) -> (e: quick_xml::events::BytesStart<'static>)
    ensures
        start_name(e) == name@,
        start_attrs(e) == Seq::<(Seq<char>, Seq<char>)>::empty(),
        start_readable(e),
        canonical(e),
{
    quick_xml::events::BytesStart::new(name.clone())
}

/// Relies on `BytesStart::push_attribute` through `Attribute::from`, which
/// escapes the value: appends one attribute. The key must be a name token as
/// the scanner yields them — nonempty, no whitespace, no `=` after its first
/// character — so that the appended text reads back as this one attribute; a
/// key already present would be refused as a duplicate on re-reading.
#[verifier::external_body]
pub(crate) fn push_attr(e: &mut quick_xml::events::BytesStart<'static>, a: &Attr)
    requires
        crate::attrs::wf_key(a.key@),
    ensures
        start_name(*final(e)) == start_name(*old(e)),
        canonical(*old(e)) ==> canonical(*final(e)),
        (start_readable(*old(e)) && (forall|i: int|
            0 <= i < start_attrs(*old(e)).len() ==> #[trigger] start_attrs(*old(e))[i].0
                != a.key@)) ==> (start_readable(*final(e)) && start_attrs(*final(e))
            == start_attrs(*old(e)).push(a.model())),
{
    e.push_attribute((a.key.as_str(), a.value.as_str()));
}

/// The sink of a pass: the indenting writer, with the events written so far
/// beside it as ghost history.
pub(crate) struct Sink {
    pub(crate) inner: quick_xml::Writer<Vec<u8>>,
    pub(crate) log: Ghost<Seq<WEvent>>,
}

/// Relies on `quick_xml::Writer::new_with_indent`: a writer over a byte
/// buffer that re-indents with one tab per nesting level.
#[verifier::external_body]
fn new_writer() -> (w: quick_xml::Writer<Vec<u8>>) {
    quick_xml::Writer::new_with_indent(Vec::new(), 9u8, 1)
}

/// A sink over a fresh writer, with nothing written yet.
pub(crate) fn new_sink() -> (s: Sink)
    ensures
        s.log@ == Seq::<WEvent>::empty(),
{
    Sink { inner: new_writer(), log: Ghost(Seq::empty()) }
}

/// Relies on `quick_xml::Writer::write_event`: appends one event whole to
/// the sink; writing into a byte buffer cannot fail.
#[verifier::external_body]
pub(crate) fn sink_write_event(s: &mut Sink, ev: quick_xml::events::Event<'static>) -> (r: Result<
    (),
    String,
>)
    ensures
        r is Ok,
        final(s).log@ == old(s).log@.push((WEvent::Passed { tag: gtag(event_model(ev)) })),
{
    match s.inner.write_event(ev) {
        Ok(()) => Ok(()),
        Err(e) => Err(format!("{}", e)),
    }
}

/// Relies on `quick_xml::Writer::write_event`: appends one element-open tag
/// whole to the sink, its bytes those of the tag's raw payload; writing into
/// a byte buffer cannot fail.
#[verifier::external_body]
pub(crate) fn sink_write_raw_start(
    s: &mut Sink,
    e: quick_xml::events::BytesStart<'static>,
) -> (r: Result<(), String>)
    ensures
        r is Ok,
        final(s).log@ == old(s).log@.push((WEvent::Passed { tag: start_token(e) })),
{
    match s.inner.write_event(quick_xml::events::Event::Start(e)) {
        Ok(()) => Ok(()),
        Err(e) => Err(format!("{}", e)),
    }
}

/// Relies on `quick_xml::Writer::write_event`: appends one self-closing tag
/// whole to the sink, its bytes those of the tag's raw payload; writing into
/// a byte buffer cannot fail.
#[verifier::external_body]
pub(crate) fn sink_write_raw_empty(
    s: &mut Sink,
    e: quick_xml::events::BytesStart<'static>,
) -> (r: Result<(), String>)
    ensures
        r is Ok,
        final(s).log@ == old(s).log@.push((WEvent::Passed { tag: empty_token(e) })),
{
    match s.inner.write_event(quick_xml::events::Event::Empty(e)) {
        Ok(()) => Ok(()),
        Err(e) => Err(format!("{}", e)),
    }
}

/// Relies on `quick_xml::Writer::write_event`: appends one element-open tag
/// in canonical form, so its bytes are those of its name and attribute
/// list; writing into a byte buffer cannot fail.
#[verifier::external_body]
pub(crate) fn sink_write_built_start(
    s: &mut Sink,
    e: quick_xml::events::BytesStart<'static>,
) -> (r: Result<(), String>)
    requires
        canonical(e),
    ensures
        r is Ok,
        final(s).log@ == old(s).log@.push(
            (WEvent::Built { name: start_name(e), attrs: start_attrs(e), empty: false }),
        ),
{
    match s.inner.write_event(quick_xml::events::Event::Start(e)) {
        Ok(()) => Ok(()),
        Err(e) => Err(format!("{}", e)),
    }
}

/// Relies on `quick_xml::Writer::write_event`: appends one self-closing tag
/// in canonical form, so its bytes are those of its name and attribute
/// list; writing into a byte buffer cannot fail.
#[verifier::external_body]
pub(crate) fn sink_write_built_empty(
    s: &mut Sink,
    e: quick_xml::events::BytesStart<'static>,
) -> (r: Result<(), String>)
    requires
        canonical(e),
    ensures
        r is Ok,
        final(s).log@ == old(s).log@.push(
            (WEvent::Built { name: start_name(e), attrs: start_attrs(e), empty: true }),
        ),
{
    match s.inner.write_event(quick_xml::events::Event::Empty(e)) {
        Ok(()) => Ok(()),
        Err(e) => Err(format!("{}", e)),
    }
}

/// Relies on `quick_xml::Writer::into_inner`: hands back the bytes written,
/// a function of the events written and the fixed indentation.
#[verifier::external_body]
pub(crate) fn sink_into_bytes(s: Sink) -> (r: Vec<u8>)
    ensures
        r@ == serialized(s.log@),
{
    s.inner.into_inner()
}

} // verus!
