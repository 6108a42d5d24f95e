//! The calls into `lopdf` that compute on a document: decoding a stream,
//! walking the page tree, and the texts of its errors.  The model is
//! converted into `lopdf`'s own types for each call.
use vstd::prelude::*;
use crate::model::{entries_get, integer_object, ObjectError, ObjectId, PdfDict, PdfDocument, PdfObject, PdfStream};
use crate::pdf::filters::decoding_fits;

verus! {

#[verifier::external_type_specification]
#[verifier::external_body]
pub struct ExLopdfDictionary(lopdf::Dictionary);

#[verifier::external_type_specification]
#[verifier::external_body]
pub struct ExLopdfStream(lopdf::Stream);

/// Converts a dictionary of the model into a `lopdf::Dictionary`, entry for
/// entry and in order (`Dictionary::new`, `Dictionary::set`).
#[verifier::external_body]
fn lopdf_dictionary(d: &PdfDict) -> lopdf::Dictionary {
    let mut out = lopdf::Dictionary::new();
    for (key, value) in d.entries.iter() {
        out.set(key.clone(), lopdf_object(value));
    }
    out
}

/// Converts a stream of the model into a `lopdf::Stream`, its dictionary
/// kept as it is.
#[verifier::external_body]
fn lopdf_stream(s: &PdfStream) -> lopdf::Stream {
    lopdf::Stream {
        dict: lopdf_dictionary(&s.dict),
        content: s.content.clone(),
        allows_compression: s.allows_compression,
        start_position: None,
    }
}

/// Converts an object of the model into a `lopdf::Object`, variant for variant.
#[verifier::external_body]
fn lopdf_object(o: &PdfObject) -> lopdf::Object {
    match o {
        PdfObject::Array(items) => lopdf::Object::Array(items.iter().map(lopdf_object).collect()),
        PdfObject::Dictionary(d) => lopdf::Object::Dictionary(lopdf_dictionary(d)),
        PdfObject::Stream(s) => lopdf::Object::Stream(lopdf_stream(s)),
        PdfObject::Reference(id) => lopdf::Object::Reference(*id),
        PdfObject::Scalar(x) => x.clone(),
    }
}

/// The name object with these bytes (`lopdf::Object::Name`).
pub uninterp spec fn name_object(b: Seq<u8>) -> lopdf::Object;

/// `lopdf::Object::as_name`.  Claimed: for a name it gives its bytes, and
/// the object is the name with exactly those bytes; for anything else it
/// fails (`None` here), and the object is no name.
#[verifier::external_body]
pub(crate) fn name_bytes(o: &lopdf::Object) -> (r: Option<Vec<u8>>)
    ensures
        match r {
            Some(v) => forall|b: Seq<u8>| (*o == #[trigger] name_object(b)) == (b == v@),
            None => forall|b: Seq<u8>| *o != #[trigger] name_object(b),
        },
{
    o.as_name().ok().map(|b| b.to_vec())
}

/// `lopdf::Object::as_i64`.  Claimed: for an integer it gives its value,
/// and the object is the integer with exactly that value; for anything
/// else it fails (`None` here), and the object is no integer.
#[verifier::external_body]
pub(crate) fn integer_value(o: &lopdf::Object) -> (r: Option<i64>)
    ensures
        match r {
            Some(n) => forall|m: i64| (*o == #[trigger] integer_object(m)) == (m == n),
            None => forall|m: i64| *o != #[trigger] integer_object(m),
        },
{
    o.as_i64().ok()
}

/// What `lopdf::Stream::decompressed_content` gives for a stream with this
/// dictionary and these bytes; `None` for its error.
pub uninterp spec fn decoded_content(dict: PdfDict, content: Seq<u8>) -> Option<Seq<u8>>;

/// `Filter`
pub open spec fn filter_key() -> Seq<u8> {
    seq![70u8, 105u8, 108u8, 116u8, 101u8, 114u8]
}

/// `lopdf::Stream::decompressed_content`: decodes the stream by the filters
/// its dictionary names.  Claimed: the result is `decoded_content` of the
/// stream's dictionary and bytes, a function of these alone; and it is an
/// error (`None` here) when the dictionary has no `Filter` entry, as the
/// function's first lookup (`self.filters()?`, through `Dictionary::get`)
/// shows.  Not claimed: which bytes a decoding gives.  Required: the
/// stream is one that `decoding_fits` admits, on which the decoders cannot
/// panic (see `crate::pdf::filters`).  Running out of memory on a large
/// but admitted stream is the machine's limit and left unsaid.
#[verifier::external_body]
pub(crate) fn decompressed_content(s: &PdfStream) -> (r: Option<Vec<u8>>)
    requires
        decoding_fits(s.dict, s.content@),
    ensures
        match r {
            Some(v) => decoded_content(s.dict, s.content@) == Some(v@),
            None => decoded_content(s.dict, s.content@) is None,
        },
        entries_get(s.dict.entries@, filter_key()) is None ==> r is None,
{
    lopdf_stream(s).decompressed_content().ok()
}

/// The pages of `doc` with their numbers, in order, as
/// `lopdf::Document::get_pages` finds them by walking the page tree from the
/// trailer's `Root`.
pub uninterp spec fn page_tree(doc: PdfDocument) -> Seq<(u32, ObjectId)>;

/// `lopdf::Document::get_pages`.  Claimed: the result is `page_tree(doc)`,
/// a function of the document alone.
#[verifier::external_body]
pub(crate) fn get_pages(doc: &PdfDocument) -> (r: Vec<(u32, ObjectId)>)
    ensures
        r@ == page_tree(*doc),
{
    let mut d = lopdf::Document::new();
    d.trailer = lopdf_dictionary(&doc.trailer);
    d.max_id = doc.max_id;
    for (id, o) in doc.objects.iter() {
        d.objects.insert(*id, lopdf_object(o));
    }
    d.get_pages().into_iter().collect()
}

/// The text that `lopdf::Error` displays for a failed lookup.
pub open spec fn error_text(e: ObjectError) -> Seq<char> {
    match e {
        ObjectError::ObjectNotFound => "A required object was not found"@,
        ObjectError::ReferenceLimit => "Could not dereference an object; possible reference cycle"@,
    }
}

/// The `Display` text of the `lopdf::Error` for a failed lookup
/// (`ObjectNotFound` or `ReferenceLimit`).  Claimed: the texts that
/// lopdf's `Display` impl writes for these two variants.
#[verifier::external_body]
pub(crate) fn error_message(e: ObjectError) -> (r: String)
    ensures
        r@ == error_text(e),
{
    let err = match e {
        ObjectError::ObjectNotFound => lopdf::Error::ObjectNotFound,
        ObjectError::ReferenceLimit => lopdf::Error::ReferenceLimit,
    };
    err.to_string()
}

/// The text that `{:?}` gives for the `lopdf::Error` of a failed lookup.
pub open spec fn error_debug_text(e: ObjectError) -> Seq<char> {
    match e {
        ObjectError::ObjectNotFound => "ObjectNotFound"@,
        ObjectError::ReferenceLimit => "ReferenceLimit"@,
    }
}

/// The `Debug` text of the `lopdf::Error` for a failed lookup.  Claimed:
/// the variant's name, as lopdf's derived `Debug` writes it.
#[verifier::external_body]
pub(crate) fn error_debug(e: ObjectError) -> (r: String)
    ensures
        r@ == error_debug_text(e),
{
    let err = match e {
        ObjectError::ObjectNotFound => lopdf::Error::ObjectNotFound,
        ObjectError::ReferenceLimit => lopdf::Error::ReferenceLimit,
    };
    format!("{:?}", err)
}

} // verus!
