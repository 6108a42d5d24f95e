//! Flattening: the appearance streams of a page's annotations are appended
//! to the page's content, and the annotations are removed.
use vstd::prelude::*;
use crate::i18n::{
    err_process_page, err_process_page_text,
    err_deref_object, err_deref_object_text, err_get_page, err_get_page_text, err_modify_page,
    err_modify_page_text, Language,
};
use crate::model::{
    dictionaries_keyed_once, dictionary_changed, entries_get, entries_remove, entries_set, get_obj, is_fresh_stream,
    lookup_outcome, next_number, ObjectError, ObjectId, PdfDict, PdfDocument, PdfObject,
    PdfStream,
};
use crate::pdf::paths::{
    extension, file_stem, join, joined, joined_either, last_index, last_name, lemma_last_index,
    lemma_plain_file_parts, name_extension, name_stem, parent, plain_file, plain_parent, single_name,
    ends_with, is_sep_char, lemma_sep_tail_append, pdf_ext, pdf_stem_tail, pdf_tail_path, sep_tail,
};
use crate::text::concat2;
use crate::pdf::filters::{decoding_fits, decoding_fits_exec};
use crate::pdf::outside::{
    get_pages, page_tree,
    decoded_content, decompressed_content, error_debug, filter_key, error_debug_text, error_message,
    error_text,
};

verus! {

// ---------------------------------------------------------------------
// Keys and fixed byte strings
// ---------------------------------------------------------------------

/// `Annots`
pub open spec fn annots_key() -> Seq<u8> {
    seq![65u8, 110u8, 110u8, 111u8, 116u8, 115u8]
}

/// `AP`
pub open spec fn ap_key() -> Seq<u8> {
    seq![65u8, 80u8]
}

/// `N`
pub open spec fn n_key() -> Seq<u8> {
    seq![78u8]
}

/// `Contents`
pub open spec fn contents_key() -> Seq<u8> {
    seq![67u8, 111u8, 110u8, 116u8, 101u8, 110u8, 116u8, 115u8]
}

fn annots_key_bytes() -> (r: Vec<u8>)
    ensures
        r@ == annots_key(),
{
    let r = vec![65u8, 110u8, 110u8, 111u8, 116u8, 115u8];
    assert(r@ =~= annots_key());
    r
}

fn ap_key_bytes() -> (r: Vec<u8>)
    ensures
        r@ == ap_key(),
{
    let r = vec![65u8, 80u8];
    assert(r@ =~= ap_key());
    r
}

fn n_key_bytes() -> (r: Vec<u8>)
    ensures
        r@ == n_key(),
{
    let r = vec![78u8];
    assert(r@ =~= n_key());
    r
}

fn contents_key_bytes() -> (r: Vec<u8>)
    ensures
        r@ == contents_key(),
{
    let r = vec![67u8, 111u8, 110u8, 116u8, 101u8, 110u8, 116u8, 115u8];
    assert(r@ =~= contents_key());
    r
}

/// A line break.
pub open spec fn newline() -> Seq<u8> {
    seq![10u8]
}

/// `bytes` between a save (`q`) and a restore (`Q`) of the graphics state:
/// `q\n`, the bytes, `\nQ\n`.
pub open spec fn wrapped(bytes: Seq<u8>) -> Seq<u8> {
    seq![113u8, 10u8] + bytes + seq![10u8, 81u8, 10u8]
}

/// Each of `parts` wrapped, one after the other.
pub open spec fn wrap_all(parts: Seq<Seq<u8>>) -> Seq<u8>
    decreases parts.len(),
{
    if parts.len() == 0 {
        Seq::empty()
    } else {
        wrap_all(parts.drop_last()) + wrapped(parts.last())
    }
}

/// The content of a flattened page: its former content, then each
/// appearance in order, each in a save/restore pair of its own.
pub open spec fn flattened_content(current: Seq<u8>, appearances: Seq<Seq<u8>>) -> Seq<u8> {
    wrapped(current) + wrap_all(appearances)
}

// ---------------------------------------------------------------------
// Streams
// ---------------------------------------------------------------------

/// The bytes a stream stands for: as stored when its dictionary names no
/// `Filter`, or when decoding it could panic (`decoding_fits`); otherwise
/// decoded when that succeeds, else as stored.
pub open spec fn stream_bytes(s: PdfStream) -> Seq<u8> {
    if entries_get(s.dict.entries@, filter_key()) is None || !decoding_fits(s.dict, s.content@) {
        s.content@
    } else {
        match decoded_content(s.dict, s.content@) {
            Some(b) => b,
            None => s.content@,
        }
    }
}

/// A copy of `v`.
fn copy_bytes(v: &Vec<u8>) -> (r: Vec<u8>)
    ensures
        r@ == v@,
{
    let mut r: Vec<u8> = Vec::new();
    let mut i: usize = 0;
    while i < v.len()
        invariant
            i <= v@.len(),
            r@ == v@.take(i as int),
        decreases v@.len() - i,
    {
        r.push(v[i]);
        i = i + 1;
        assert(r@ =~= v@.take(i as int));
    }
    assert(v@.take(v@.len() as int) =~= v@);
    r
}

/// Appends `src` to `dst`.
fn append_bytes(dst: &mut Vec<u8>, src: &[u8])
    ensures
        final(dst)@ == old(dst)@ + src@,
{
    let mut i: usize = 0;
    while i < src.len()
        invariant
            i <= src@.len(),
            dst@ == old(dst)@ + src@.take(i as int),
        decreases src@.len() - i,
    {
        dst.push(src[i]);
        i = i + 1;
        assert(dst@ =~= old(dst)@ + src@.take(i as int));
    }
    assert(src@.take(src@.len() as int) =~= src@);
}

/// The bytes of a stream: decoded by its filters when that succeeds, else
/// the stored bytes.  A stream whose decoding could panic in lopdf is not
/// handed to it and reads as stored.
pub fn get_stream_content(stream: &PdfStream) -> (r: Vec<u8>)
    ensures
        r@ == stream_bytes(*stream),
{
    if !decoding_fits_exec(stream) {
        return copy_bytes(&stream.content);
    }
    match decompressed_content(stream) {
        Some(content) => content,
        None => copy_bytes(&stream.content),
    }
}

// ---------------------------------------------------------------------
// The content of a page
// ---------------------------------------------------------------------

/// The combined content of the items of a content array: each stream's
/// bytes followed by a line break, nested arrays reached by reference in
/// place, anything else skipped.  `None` when following nested arrays takes
/// more than `fuel` steps.
pub open spec fn items_content(doc: PdfDocument, items: Seq<PdfObject>, fuel: nat) -> Option<Seq<u8>>
    decreases fuel, items.len(),
{
    if items.len() == 0 {
        Some(Seq::empty())
    } else {
        match items_content(doc, items.drop_last(), fuel) {
            None => None,
            Some(prefix) => match items.last() {
                PdfObject::Stream(s) => Some(prefix + stream_bytes(s) + newline()),
                PdfObject::Reference(id) => match get_obj(doc, id) {
                    Ok(PdfObject::Stream(s)) => Some(prefix + stream_bytes(s) + newline()),
                    Ok(PdfObject::Array(inner)) => if fuel == 0 {
                        None
                    } else {
                        match items_content(doc, inner@, (fuel - 1) as nat) {
                            Some(c) => Some(prefix + c),
                            None => None,
                        }
                    },
                    _ => Some(prefix),
                },
                _ => Some(prefix),
            },
        }
    }
}

/// The content that a page's `Contents` value stands for: a stream's bytes,
/// the combined content of an array, what a reference leads to, or nothing.
/// `None` when following references takes more than `fuel` steps.
pub open spec fn content_within(doc: PdfDocument, obj: PdfObject, fuel: nat) -> Option<
    Result<Seq<u8>, ObjectError>,
>
    decreases fuel,
{
    match obj {
        PdfObject::Stream(s) => Some(Ok(stream_bytes(s))),
        PdfObject::Array(items) => match items_content(doc, items@, fuel) {
            Some(c) => Some(Ok(c)),
            None => None,
        },
        PdfObject::Reference(id) => match get_obj(doc, id) {
            Err(e) => Some(Err(e)),
            Ok(o) => if fuel == 0 {
                None
            } else {
                content_within(doc, o, (fuel - 1) as nat)
            },
        },
        _ => Some(Ok(Seq::empty())),
    }
}

/// The steps that reading a page's content may take: one per stored object.
pub open spec fn content_fuel(doc: PdfDocument) -> nat {
    doc.objects@.len()
}

/// The content that `obj` stands for; a chain of nested arrays longer than
/// the document has objects (a cycle) gives `ReferenceLimit`.
pub open spec fn content_of(doc: PdfDocument, obj: PdfObject) -> Result<Seq<u8>, ObjectError> {
    match content_within(doc, obj, content_fuel(doc)) {
        Some(r) => r,
        None => Err(ObjectError::ReferenceLimit),
    }
}

/// Once a prefix of the items runs out of steps, so do all longer ones.
proof fn lemma_items_none_extends(doc: PdfDocument, items: Seq<PdfObject>, k: int, m: int, fuel: nat)
    requires
        0 <= k <= m <= items.len(),
        items_content(doc, items.take(k), fuel) is None,
    ensures
        items_content(doc, items.take(m), fuel) is None,
    decreases m - k,
{
    if m > k {
        lemma_items_none_extends(doc, items, k, m - 1, fuel);
        assert(items.take(m).drop_last() =~= items.take(m - 1));
    }
}

fn items_content_exec(doc: &PdfDocument, items: &Vec<PdfObject>, fuel: usize) -> (r: Option<Vec<u8>>)
    ensures
        match r {
            Some(v) => items_content(*doc, items@, fuel as nat) == Some(v@),
            None => items_content(*doc, items@, fuel as nat) is None,
        },
    decreases fuel,
{
    let mut combined: Vec<u8> = Vec::new();
    let mut i: usize = 0;
    assert(items@.take(0) =~= Seq::<PdfObject>::empty());
    while i < items.len()
        invariant
            i <= items@.len(),
            items_content(*doc, items@.take(i as int), fuel as nat) == Some(combined@),
        decreases items@.len() - i,
    {
        let ghost prefix = combined@;
        assert(items@.take(i + 1).drop_last() =~= items@.take(i as int));
        assert(items@.take(i + 1).last() == items@[i as int]);
        match &items[i] {
            PdfObject::Stream(s) => {
                let c = get_stream_content(s);
                append_bytes(&mut combined, c.as_slice());
                combined.push(10u8);
                assert(combined@ =~= prefix + stream_bytes(*s) + newline());
            },
            PdfObject::Reference(id) => match doc.get_object(*id) {
                Ok(PdfObject::Stream(s)) => {
                    let c = get_stream_content(s);
                    append_bytes(&mut combined, c.as_slice());
                    combined.push(10u8);
                    assert(combined@ =~= prefix + stream_bytes(*s) + newline());
                },
                Ok(PdfObject::Array(inner)) => {
                    if fuel == 0 {
                        proof {
                            lemma_items_none_extends(*doc, items@, i + 1, items@.len() as int, fuel as nat);
                            assert(items@.take(items@.len() as int) =~= items@);
                        }
                        return None;
                    }
                    match items_content_exec(doc, inner, fuel - 1) {
                        None => {
                            proof {
                                lemma_items_none_extends(*doc, items@, i + 1, items@.len() as int, fuel as nat);
                                assert(items@.take(items@.len() as int) =~= items@);
                            }
                            return None;
                        },
                        Some(c) => {
                            append_bytes(&mut combined, c.as_slice());
                        },
                    }
                },
                _ => {},
            },
            _ => {},
        }
        i = i + 1;
    }
    assert(items@.take(items@.len() as int) =~= items@);
    Some(combined)
}

fn content_exec(doc: &PdfDocument, obj: &PdfObject, fuel: usize) -> (r: Option<Result<Vec<u8>, ObjectError>>)
    ensures
        match r {
            Some(Ok(v)) => content_within(*doc, *obj, fuel as nat) == Some(Ok::<Seq<u8>, ObjectError>(v@)),
            Some(Err(e)) => content_within(*doc, *obj, fuel as nat) == Some(Err::<Seq<u8>, ObjectError>(e)),
            None => content_within(*doc, *obj, fuel as nat) is None,
        },
    decreases fuel,
{
    match obj {
        PdfObject::Stream(s) => Some(Ok(get_stream_content(s))),
        PdfObject::Array(items) => match items_content_exec(doc, items, fuel) {
            Some(c) => Some(Ok(c)),
            None => None,
        },
        PdfObject::Reference(id) => match doc.get_object(*id) {
            Err(e) => Some(Err(e)),
            Ok(o) => if fuel == 0 {
                None
            } else {
                content_exec(doc, o, fuel - 1)
            },
        },
        _ => Some(Ok(Vec::new())),
    }
}

/// The content that a page's `Contents` value `obj` stands for: a stream's
/// bytes; for an array, the bytes of each stream in it (directly or by
/// reference) followed by a line break, nested arrays in place; what a
/// reference leads to; nothing for anything else.
pub fn get_content_from_object(doc: &PdfDocument, obj: &PdfObject) -> (r: Result<Vec<u8>, ObjectError>)
    ensures
        match r {
            Ok(v) => content_of(*doc, *obj) == Ok::<Seq<u8>, ObjectError>(v@),
            Err(e) => content_of(*doc, *obj) == Err::<Seq<u8>, ObjectError>(e),
        },
{
    match content_exec(doc, obj, doc.objects.len()) {
        Some(r) => r,
        None => Err(ObjectError::ReferenceLimit),
    }
}

// ---------------------------------------------------------------------
// Annotations
// ---------------------------------------------------------------------

/// The appearance of an item of a page's `Annots`: for a reference to an
/// annotation dictionary whose `AP` dictionary has a normal appearance `N`
/// that is a stream (directly or by reference), that stream's bytes.
pub open spec fn appearance_of(doc: PdfDocument, item: PdfObject) -> Option<Seq<u8>> {
    match item {
        PdfObject::Reference(id) => match get_obj(doc, id) {
            Ok(PdfObject::Dictionary(annot)) => match entries_get(annot.entries@, ap_key()) {
                Some(PdfObject::Dictionary(ap)) => match entries_get(ap.entries@, n_key()) {
                    Some(PdfObject::Stream(s)) => Some(stream_bytes(s)),
                    Some(PdfObject::Reference(r)) => match get_obj(doc, r) {
                        Ok(PdfObject::Stream(s)) => Some(stream_bytes(s)),
                        _ => None,
                    },
                    _ => None,
                },
                _ => None,
            },
            _ => None,
        },
        _ => None,
    }
}

/// The appearances of the annotation items that have one, in order.
pub open spec fn appearances(doc: PdfDocument, items: Seq<PdfObject>) -> Seq<Seq<u8>>
    decreases items.len(),
{
    if items.len() == 0 {
        Seq::empty()
    } else {
        let rest = appearances(doc, items.drop_last());
        match appearance_of(doc, items.last()) {
            Some(b) => rest.push(b),
            None => rest,
        }
    }
}

fn appearance_exec(doc: &PdfDocument, item: &PdfObject) -> (r: Option<Vec<u8>>)
    ensures
        match r {
            Some(v) => appearance_of(*doc, *item) == Some(v@),
            None => appearance_of(*doc, *item) is None,
        },
{
    let id = match item {
        PdfObject::Reference(id) => *id,
        _ => {
            return None;
        },
    };
    let annot = match doc.get_object(id) {
        Ok(PdfObject::Dictionary(d)) => d,
        _ => {
            return None;
        },
    };
    let ap_key = ap_key_bytes();
    let ap = match annot.get(ap_key.as_slice()) {
        Some(PdfObject::Dictionary(ap)) => ap,
        _ => {
            return None;
        },
    };
    let n_key = n_key_bytes();
    match ap.get(n_key.as_slice()) {
        Some(PdfObject::Stream(s)) => Some(get_stream_content(s)),
        Some(PdfObject::Reference(r)) => match doc.get_object(*r) {
            Ok(PdfObject::Stream(s)) => Some(get_stream_content(s)),
            _ => None,
        },
        _ => None,
    }
}

/// The views of a list of byte vectors.
pub open spec fn byte_views(v: Seq<Vec<u8>>) -> Seq<Seq<u8>> {
    v.map_values(|b: Vec<u8>| b@)
}

fn appearances_exec(doc: &PdfDocument, items: &Vec<PdfObject>) -> (r: Vec<Vec<u8>>)
    ensures
        byte_views(r@) == appearances(*doc, items@),
{
    let mut data: Vec<Vec<u8>> = Vec::new();
    let mut i: usize = 0;
    assert(items@.take(0) =~= Seq::<PdfObject>::empty());
    assert(byte_views(data@) =~= Seq::<Seq<u8>>::empty());
    while i < items.len()
        invariant
            i <= items@.len(),
            byte_views(data@) == appearances(*doc, items@.take(i as int)),
        decreases items@.len() - i,
    {
        assert(items@.take(i + 1).drop_last() =~= items@.take(i as int));
        assert(items@.take(i + 1).last() == items@[i as int]);
        let ghost before = data@;
        match appearance_exec(doc, &items[i]) {
            Some(content) => {
                data.push(content);
                assert(byte_views(data@) =~= byte_views(before).push(data@.last()@));
            },
            None => {},
        }
        i = i + 1;
    }
    assert(items@.take(items@.len() as int) =~= items@);
    data
}

/// The items of a page's `Annots` when there is work to do: the page is a
/// dictionary whose `Annots` is a non-empty array.
pub open spec fn page_annotations(page: PdfObject) -> Option<Seq<PdfObject>> {
    match page {
        PdfObject::Dictionary(d) => match entries_get(d.entries@, annots_key()) {
            Some(PdfObject::Array(items)) => if items@.len() > 0 {
                Some(items@)
            } else {
                None
            },
            _ => None,
        },
        _ => None,
    }
}

/// The current content of a page: what its `Contents` stands for, or
/// nothing.
pub open spec fn page_content(doc: PdfDocument, page: PdfObject) -> Result<Seq<u8>, ObjectError> {
    match page {
        PdfObject::Dictionary(d) => match entries_get(d.entries@, contents_key()) {
            Some(c) => content_of(doc, c),
            None => Ok(Seq::empty()),
        },
        _ => Ok(Seq::empty()),
    }
}

fn page_annotations_exec(page: &PdfObject) -> (r: Option<&Vec<PdfObject>>)
    ensures
        match r {
            Some(items) => page_annotations(*page) == Some(items@),
            None => page_annotations(*page) is None,
        },
{
    let d = match page {
        PdfObject::Dictionary(d) => d,
        _ => {
            return None;
        },
    };
    let key = annots_key_bytes();
    match d.get(key.as_slice()) {
        Some(PdfObject::Array(items)) => if items.len() > 0 {
            Some(items)
        } else {
            None
        },
        _ => None,
    }
}

fn page_content_exec(doc: &PdfDocument, page: &PdfObject) -> (r: Result<Vec<u8>, ObjectError>)
    ensures
        match r {
            Ok(v) => page_content(*doc, *page) == Ok::<Seq<u8>, ObjectError>(v@),
            Err(e) => page_content(*doc, *page) == Err::<Seq<u8>, ObjectError>(e),
        },
{
    match page {
        PdfObject::Dictionary(d) => {
            let key = contents_key_bytes();
            match d.get(key.as_slice()) {
                Some(c) => get_content_from_object(doc, c),
                None => Ok(Vec::new()),
            }
        },
        _ => Ok(Vec::new()),
    }
}

fn flattened_content_exec(current: &Vec<u8>, data: &Vec<Vec<u8>>) -> (r: Vec<u8>)
    ensures
        r@ == flattened_content(current@, byte_views(data@)),
{
    let mut out: Vec<u8> = Vec::new();
    out.push(113u8);
    out.push(10u8);
    append_bytes(&mut out, current.as_slice());
    out.push(10u8);
    out.push(81u8);
    out.push(10u8);
    assert(out@ =~= wrapped(current@));
    let mut i: usize = 0;
    assert(byte_views(data@).take(0) =~= Seq::<Seq<u8>>::empty());
    while i < data.len()
        invariant
            i <= data@.len(),
            out@ == wrapped(current@) + wrap_all(byte_views(data@).take(i as int)),
        decreases data@.len() - i,
    {
        let ghost before = out@;
        out.push(113u8);
        out.push(10u8);
        append_bytes(&mut out, data[i].as_slice());
        out.push(10u8);
        out.push(81u8);
        out.push(10u8);
        proof {
            let views = byte_views(data@);
            assert(views.take(i + 1).drop_last() =~= views.take(i as int));
            assert(views.take(i + 1).last() == data@[i as int]@);
            assert(out@ =~= before + wrapped(data@[i as int]@));
        }
        i = i + 1;
    }
    assert(byte_views(data@).take(data@.len() as int) =~= byte_views(data@));
    out
}

// ---------------------------------------------------------------------
// Flattening a page
// ---------------------------------------------------------------------

/// `new` is `old` with the stream of `content` added under the next object
/// number.
pub open spec fn stream_added(old: PdfDocument, new: PdfDocument, content: Seq<u8>) -> bool {
    &&& new.max_id == next_number(old.max_id)
    &&& new.trailer == old.trailer
    &&& new.objects@.len() == old.objects@.len() + 1
    &&& new.objects@.drop_last() == old.objects@
    &&& new.objects@.last().0 == (new.max_id, 0u16)
    &&& is_fresh_stream(new.objects@.last().1, content)
}

/// `new` is `old` with `Annots` removed from the dictionary that `page_id`
/// leads to; `r` is the outcome of that step.
pub open spec fn annotations_removed(
    old: PdfDocument,
    new: PdfDocument,
    page_id: ObjectId,
    lang: Language,
    r: Result<(), Seq<char>>,
) -> bool {
    &&& dictionary_changed(
        old,
        new,
        page_id,
        |a: Seq<(Vec<u8>, PdfObject)>, b: Seq<(Vec<u8>, PdfObject)>| b == entries_remove(a, annots_key()),
    )
    &&& r == match lookup_outcome(old, page_id) {
        Ok(_) => Ok::<(), Seq<char>>(()),
        Err(e) => Err(err_modify_page_text(lang, error_text(e))),
    }
}

/// `new` is `added` with the dictionary that `page_id` leads to having its
/// `Contents` set to the object last added.
pub open spec fn contents_linked(added: PdfDocument, new: PdfDocument, page_id: ObjectId) -> bool {
    dictionary_changed(
        added,
        new,
        page_id,
        |a: Seq<(Vec<u8>, PdfObject)>, b: Seq<(Vec<u8>, PdfObject)>|
            entries_set(a, b, contents_key(), PdfObject::Reference((added.max_id, 0u16))),
    )
}

/// `new` is `old` with a stream of `content` added and made the page's
/// `Contents`, and then `Annots` removed from the page; `r` is the outcome.
pub open spec fn content_replaced(
    old: PdfDocument,
    new: PdfDocument,
    page_id: ObjectId,
    lang: Language,
    r: Result<(), Seq<char>>,
    content: Seq<u8>,
) -> bool {
    exists|added: PdfDocument, linked: PdfDocument|
        #![trigger stream_added(old, added, content), contents_linked(added, linked, page_id)]
        {
            &&& stream_added(old, added, content)
            &&& contents_linked(added, linked, page_id)
            &&& match lookup_outcome(added, page_id) {
                Err(e) => new == linked && r == Err::<(), Seq<char>>(err_modify_page_text(lang, error_text(e))),
                Ok(_) => annotations_removed(linked, new, page_id, lang, r),
            }
        }
}

/// What flattening the page `page_id` of `old` does: `new` is the document
/// afterwards and `r` the outcome (with the error message, in `lang`).
///
/// A page that is not a dictionary, or has no non-empty `Annots` array, is
/// left as it is.  Otherwise, when some annotation has an appearance
/// stream, a new stream holding the page's former content and then each
/// appearance, each between `q` and `Q`, is added and becomes the page's
/// `Contents`; then `Annots` is removed from the page.
pub open spec fn flatten_page_outcome(
    old: PdfDocument,
    new: PdfDocument,
    page_id: ObjectId,
    lang: Language,
    r: Result<(), Seq<char>>,
) -> bool {
    match get_obj(old, page_id) {
        Err(e) => new == old && r == Err::<(), Seq<char>>(err_get_page_text(lang, error_text(e))),
        Ok(page) => match page_annotations(page) {
            None => new == old && r == Ok::<(), Seq<char>>(()),
            Some(items) => {
                let data = appearances(old, items);
                if data.len() == 0 {
                    annotations_removed(old, new, page_id, lang, r)
                } else {
                    match page_content(old, page) {
                        Err(e) => new == old && r == Err::<(), Seq<char>>(
                            err_deref_object_text(lang, error_debug_text(e)),
                        ),
                        Ok(current) => content_replaced(old, new, page_id, lang, r, flattened_content(current, data)),
                    }
                }
            },
        },
    }
}

/// The view of an outcome with a text error.
pub open spec fn outcome_view(r: Result<(), String>) -> Result<(), Seq<char>> {
    match r {
        Ok(()) => Ok(()),
        Err(s) => Err(s@),
    }
}

/// Adds the stream of `content` and makes it the `Contents` of the
/// dictionary that `page_id` leads to.
fn add_content_stream(doc: &mut PdfDocument, page_id: ObjectId, content: Vec<u8>) -> (r: (
    Result<(), ObjectError>,
    Ghost<PdfDocument>,
))
    ensures
        stream_added(*old(doc), r.1@, content@),
        contents_linked(r.1@, *final(doc), page_id),
        r.0 == lookup_outcome(r.1@, page_id),
        dictionaries_keyed_once(*old(doc)) ==> dictionaries_keyed_once(*final(doc)),
{
    let ghost content_view = content@;
    let new_id = doc.add_object(PdfObject::Stream(PdfStream::new(content)));
    let ghost added = *doc;
    assert(added.objects@.drop_last() =~= old(doc).objects@);
    assert(stream_added(*old(doc), added, content_view));
    let r = doc.set_in_dictionary(page_id, contents_key_bytes(), PdfObject::Reference(new_id));
    assert(contents_linked(added, *doc, page_id));
    (r, Ghost(added))
}

/// Flattens the annotations of one page into its content; see
/// `flatten_page_outcome`.
pub fn flatten_page(doc: &mut PdfDocument, page_id: ObjectId, lang: Language) -> (r: Result<(), String>)
    ensures
        flatten_page_outcome(*old(doc), *final(doc), page_id, lang, outcome_view(r)),
        dictionaries_keyed_once(*old(doc)) ==> dictionaries_keyed_once(*final(doc)),
{
    let ghost items_view: Seq<PdfObject>;
    let ghost page_view: PdfObject;
    let (data, current) = {
        let page = match doc.get_object(page_id) {
            Err(e) => {
                let msg = error_message(e);
                return Err(err_get_page(lang, msg.as_str()));
            },
            Ok(page) => page,
        };
        let items = match page_annotations_exec(page) {
            None => {
                return Ok(());
            },
            Some(items) => items,
        };
        proof {
            items_view = items@;
            page_view = *page;
        }
        let data = appearances_exec(doc, items);
        if data.len() == 0 {
            (data, Vec::new())
        } else {
            match page_content_exec(doc, page) {
                Err(e) => {
                    let msg = error_debug(e);
                    return Err(err_deref_object(lang, msg.as_str()));
                },
                Ok(current) => (data, current),
            }
        }
    };
    let ghost start = *doc;
    assert(get_obj(start, page_id) == Ok::<PdfObject, ObjectError>(page_view));
    assert(page_annotations(page_view) == Some(items_view));
    assert(byte_views(data@) == appearances(start, items_view));
    if data.len() > 0 {
        assert(page_content(start, page_view) == Ok::<Seq<u8>, ObjectError>(current@));
        let content = flattened_content_exec(&current, &data);
        let (linked_result, Ghost(added)) = add_content_stream(doc, page_id, content);
        let ghost linked = *doc;
        match linked_result {
            Err(e) => {
                let msg = error_message(e);
                let r = Err(err_modify_page(lang, msg.as_str()));
                assert(stream_added(start, added, flattened_content(current@, byte_views(data@))));
                assert(contents_linked(added, linked, page_id));
                assert(content_replaced(start, *doc, page_id, lang, outcome_view(r), flattened_content(current@, byte_views(data@))));
                return r;
            },
            Ok(()) => {},
        }
        let key = annots_key_bytes();
        let removed = doc.remove_from_dictionary(page_id, key.as_slice());
        let r = match removed {
            Err(e) => {
                let msg = error_message(e);
                Err(err_modify_page(lang, msg.as_str()))
            },
            Ok(()) => Ok(()),
        };
        assert(annotations_removed(linked, *doc, page_id, lang, outcome_view(r)));
        assert(stream_added(start, added, flattened_content(current@, byte_views(data@))));
        assert(contents_linked(added, linked, page_id));
        assert(content_replaced(start, *doc, page_id, lang, outcome_view(r), flattened_content(current@, byte_views(data@))));
        r
    } else {
        let key = annots_key_bytes();
        let removed = doc.remove_from_dictionary(page_id, key.as_slice());
        let r = match removed {
            Err(e) => {
                let msg = error_message(e);
                Err(err_modify_page(lang, msg.as_str()))
            },
            Ok(()) => Ok(()),
        };
        assert(annotations_removed(start, *doc, page_id, lang, outcome_view(r)));
        r
    }
}

// ---------------------------------------------------------------------
// Flattening a document
// ---------------------------------------------------------------------

/// `states` runs through the pages: each page, flattened in the state
/// before it, succeeds and gives the state after it.
pub open spec fn pages_run(states: Seq<PdfDocument>, pages: Seq<(u32, ObjectId)>, lang: Language) -> bool {
    &&& states.len() == pages.len() + 1
    &&& forall|j: int|
        0 <= j < pages.len() ==> #[trigger] flatten_page_outcome(
            states[j],
            states[j + 1],
            pages[j].1,
            lang,
            Ok(()),
        )
}

/// `new` is `old` with the pages flattened one after the other, stopping at
/// the first that fails; `r` is the outcome, a failed page's error prefixed
/// with its number.
pub open spec fn pages_flattened(
    old: PdfDocument,
    new: PdfDocument,
    pages: Seq<(u32, ObjectId)>,
    lang: Language,
    r: Result<(), Seq<char>>,
) -> bool {
    match r {
        Ok(()) => exists|states: Seq<PdfDocument>|
            #![trigger pages_run(states, pages, lang)]
            pages_run(states, pages, lang) && states[0] == old && states.last() == new,
        Err(e) => exists|states: Seq<PdfDocument>, k: int, e0: Seq<char>|
            #![trigger pages_run(states, pages.take(k), lang), flatten_page_outcome(states.last(), new, pages[k].1, lang, Err(e0))]
            {
                &&& 0 <= k < pages.len()
                &&& pages_run(states, pages.take(k), lang)
                &&& states[0] == old
                &&& flatten_page_outcome(states.last(), new, pages[k].1, lang, Err(e0))
                &&& e == err_process_page_text(lang, pages[k].0 as nat, e0)
            },
    }
}

/// Flattens the given pages in order, stopping at the first error.
pub fn flatten_pages(doc: &mut PdfDocument, pages: &Vec<(u32, ObjectId)>, lang: Language) -> (r: Result<(), String>)
    ensures
        pages_flattened(*old(doc), *final(doc), pages@, lang, outcome_view(r)),
        dictionaries_keyed_once(*old(doc)) ==> dictionaries_keyed_once(*final(doc)),
{
    let ghost start = *doc;
    let ghost mut states: Seq<PdfDocument> = seq![*doc];
    let mut i: usize = 0;
    while i < pages.len()
        invariant
            i <= pages@.len(),
            start == *old(doc),
            pages_run(states, pages@.take(i as int), lang),
            states[0] == start,
            states.last() == *doc,
            dictionaries_keyed_once(start) ==> dictionaries_keyed_once(*doc),
        decreases pages@.len() - i,
    {
        let ghost mid = *doc;
        let (number, page_id) = pages[i];
        let result = flatten_page(doc, page_id, lang);
        match result {
            Err(e) => {
                let msg = err_process_page(lang, number, e.as_str());
                proof {
                    assert(pages@.take(i as int) == pages@.take(i as int));
                    assert(flatten_page_outcome(states.last(), *doc, pages@[i as int].1, lang, Err(e@)));
                    assert(pages_run(states, pages@.take(i as int), lang));
                }
                return Err(msg);
            },
            Ok(()) => {
                proof {
                    let old_states = states;
                    states = states.push(*doc);
                    assert forall|j: int| 0 <= j < i + 1 implies #[trigger] flatten_page_outcome(
                        states[j],
                        states[j + 1],
                        pages@.take(i + 1)[j].1,
                        lang,
                        Ok(()),
                    ) by {
                        if j < i {
                            assert(flatten_page_outcome(old_states[j], old_states[j + 1], pages@.take(i as int)[j].1, lang, Ok(())));
                        }
                    }
                }
            },
        }
        i = i + 1;
    }
    assert(pages@.take(pages@.len() as int) =~= pages@);
    Ok(())
}

/// The file name of the flattened copy: the stem (`output` when there is
/// none), `_flattened.`, then the extension (`pdf` when there is none).
pub open spec fn flattened_name(stem: Option<Seq<char>>, ext: Option<Seq<char>>) -> Seq<char> {
    let s = match stem {
        Some(s) => s,
        None => "output"@,
    };
    let e = match ext {
        Some(e) => e,
        None => "pdf"@,
    };
    s + "_flattened."@ + e
}

/// The name of the flattened copy of the file at the plain path `s`: its
/// stem, `_flattened.`, then its extension (`pdf` when it has none).
pub open spec fn kept_copy_name(s: Seq<char>) -> Seq<char> {
    flattened_name(Some(name_stem(last_name(s))), name_extension(last_name(s)))
}

/// The copy's name is a single name, longer than the file's own.
proof fn lemma_kept_copy_name(s: Seq<char>)
    requires
        plain_file(s),
    ensures
        single_name(kept_copy_name(s)),
        kept_copy_name(s).len() > last_name(s).len(),
{
    lemma_plain_file_parts(s);
    let n = last_name(s);
    lemma_last_index(n, '.');
    reveal_strlit("_flattened.");
    reveal_strlit("pdf");
    let stem = name_stem(n);
    let e = match name_extension(n) {
        Some(e) => e,
        None => "pdf"@,
    };
    let mid = "_flattened."@;
    let flat = kept_copy_name(s);
    assert(flat == stem + mid + e);
    assert forall|i: int| 0 <= i < stem.len() implies stem[i] != '/' && stem[i] != '\\' && stem[i] != ':' by {
        assert(stem[i] == n[i]);
    }
    assert forall|i: int| 0 <= i < e.len() implies e[i] != '/' && e[i] != '\\' && e[i] != ':' by {
        if name_extension(n) is Some {
            let p: int = last_index(n, '.')->Some_0;
            assert(e[i] == n[p + 1 + i]);
        }
    }
    assert forall|i: int| 0 <= i < flat.len() implies flat[i] != '/' && flat[i] != '\\' && flat[i] != ':' by {
        if i < stem.len() {
            assert(flat[i] == stem[i]);
        } else if i < stem.len() + mid.len() {
            assert(flat[i] == mid[i - stem.len()]);
        } else {
            assert(flat[i] == e[i - stem.len() - mid.len()]);
        }
    }
}

/// The copy's name for a path ending in a `.pdf` name ends, after its last
/// separator, in that name's stem followed by `_flattened.pdf`.
proof fn lemma_copy_name_tail(stem: Seq<char>, input: Seq<char>, name: Seq<char>)
    requires
        pdf_tail_path(input),
        sep_tail(stem) == pdf_stem_tail(input),
        name == stem + "_flattened."@ + pdf_ext(),
    ensures
        sep_tail(name) == pdf_stem_tail(input) + "_flattened."@ + pdf_ext(),
        sep_tail(name).len() == sep_tail(input).len() + 10,
{
    reveal_strlit("_flattened.");
    let t = "_flattened."@ + pdf_ext();
    assert forall|i: int| 0 <= i < t.len() implies !is_sep_char(t[i]) by {
        if i < 11 {
            assert(t[i] == "_flattened."@[i]);
        } else {
            assert(t[i] == pdf_ext()[i - 11]);
        }
    }
    assert(name =~= stem + t);
    lemma_sep_tail_append(stem, t);
    assert(pdf_stem_tail(input) + t =~= pdf_stem_tail(input) + "_flattened."@ + pdf_ext());
}

/// The view of an optional text.
pub open spec fn opt_view(o: Option<String>) -> Option<Seq<char>> {
    match o {
        Some(s) => Some(s@),
        None => None,
    }
}

/// The file name of the flattened copy of a file with this stem and
/// extension.
pub fn flattened_file_name(stem: &Option<String>, ext: &Option<String>) -> (r: String)
    ensures
        r@ == flattened_name(opt_view(*stem), opt_view(*ext)),
{
    let mut name = match stem {
        Some(s) => String::from_str(s.as_str()),
        None => String::from_str("output"),
    };
    name.append("_flattened.");
    match ext {
        Some(e) => name.append(e.as_str()),
        None => name.append("pdf"),
    }
    name
}

/// Where the flattened document is written: the input file itself, or,
/// when the input file is kept, a file named by `flattened_file_name` beside
/// it (in `.` when the path has no parent).
pub fn output_path(input_path: &str, keep_original: bool) -> (r: String)
    ensures
        !keep_original ==> r@ == input_path@,
        keep_original && plain_file(input_path@) ==> joined_either(
            r@,
            plain_parent(input_path@),
            kept_copy_name(input_path@),
        ),
        keep_original && plain_file(input_path@) ==> r@ != input_path@,
        keep_original && pdf_tail_path(input_path@) ==> ends_with(
            sep_tail(r@),
            pdf_stem_tail(input_path@) + "_flattened."@ + pdf_ext(),
        ),
        keep_original && pdf_tail_path(input_path@) ==> r@ != input_path@,
{
    if keep_original {
        let stem = file_stem(input_path);
        let ext = extension(input_path);
        let name = flattened_file_name(&stem, &ext);
        let dir = match parent(input_path) {
            Some(p) => p,
            None => String::from_str("."),
        };
        let r = join(dir.as_str(), name.as_str());
        proof {
            if pdf_tail_path(input_path@) {
                lemma_copy_name_tail(stem->Some_0@, input_path@, name@);
            }
            if plain_file(input_path@) {
                lemma_plain_file_parts(input_path@);
                lemma_kept_copy_name(input_path@);
                assert(opt_view(ext) == name_extension(last_name(input_path@)));
                assert(name@ == kept_copy_name(input_path@));
                let base = plain_parent(input_path@);
                assert(joined(base, name@, '/').len() > joined(base, last_name(input_path@), '/').len());
                assert(joined(base, name@, '\\').len() > joined(base, last_name(input_path@), '/').len());
            }
        }
        r
    } else {
        String::from_str(input_path)
    }
}

/// Flattens every page of a document loaded from `input_path`, in page
/// order, and gives the path to write the result to.
pub fn flatten_pdf(doc: &mut PdfDocument, input_path: &str, keep_original: bool, lang: Language) -> (r: Result<String, String>)
    ensures
        pages_flattened(
            *old(doc),
            *final(doc),
            page_tree(*old(doc)),
            lang,
            match r {
                Ok(_) => Ok::<(), Seq<char>>(()),
                Err(e) => Err(e@),
            },
        ),
        dictionaries_keyed_once(*old(doc)) ==> dictionaries_keyed_once(*final(doc)),
        !keep_original ==> (r matches Ok(p) ==> p@ == input_path@),
        keep_original && pdf_tail_path(input_path@) ==> (r matches Ok(p) ==> ends_with(
            sep_tail(p@),
            pdf_stem_tail(input_path@) + "_flattened."@ + pdf_ext(),
        ) && p@ != input_path@),
        keep_original && plain_file(input_path@) ==> (r matches Ok(p) ==> joined_either(
            p@,
            plain_parent(input_path@),
            kept_copy_name(input_path@),
        ) && p@ != input_path@),
{
    let pages = get_pages(doc);
    match flatten_pages(doc, &pages, lang) {
        Err(e) => Err(e),
        Ok(()) => Ok(output_path(input_path, keep_original)),
    }
}

} // verus!
