//! What the file list shows of a PDF file, and how it is read from a document.
use vstd::prelude::*;
use crate::i18n::{status_pending, Language, choose_text};
use crate::model::{entries_get, get_obj, ObjectId, PdfDocument, PdfObject};
use crate::pdf::flatten::annots_key;
use crate::pdf::outside::{get_pages, page_tree};
use crate::pdf::paths::{file_name, last_name, plain_file};

verus! {

/// A file in the list: where it is, its name, its page and annotation
/// counts, and its processing status.
#[derive(Debug)]
pub struct PdfInfo {
    pub path: String,
    pub name: String,
    pub pages: usize,
    pub annotations: usize,
    pub status: String,
}

/// How many annotations a page lists: the length of its `Annots` array,
/// when the page is a dictionary holding one.
pub open spec fn page_annotation_count(doc: PdfDocument, page_id: ObjectId) -> nat {
    match get_obj(doc, page_id) {
        Ok(PdfObject::Dictionary(d)) => match entries_get(d.entries@, annots_key()) {
            Some(PdfObject::Array(items)) => items@.len(),
            _ => 0,
        },
        _ => 0,
    }
}

/// The annotations listed by all the pages.
pub open spec fn annotation_total(doc: PdfDocument, pages: Seq<(u32, ObjectId)>) -> nat
    decreases pages.len(),
{
    if pages.len() == 0 {
        0
    } else {
        annotation_total(doc, pages.drop_last()) + page_annotation_count(doc, pages.last().1)
    }
}

/// The count as a `usize` holds it: the total, wrapping around.
pub open spec fn wrapped_count(n: nat) -> nat {
    n % (usize::MAX as nat + 1)
}

fn page_annotation_count_exec(doc: &PdfDocument, page_id: ObjectId) -> (r: usize)
    ensures
        r == page_annotation_count(*doc, page_id),
{
    match doc.get_object(page_id) {
        Ok(PdfObject::Dictionary(d)) => {
            let key = vec![65u8, 110u8, 110u8, 111u8, 116u8, 115u8];
            assert(key@ =~= annots_key());
            match d.get(key.as_slice()) {
                Some(PdfObject::Array(items)) => items.len(),
                _ => 0,
            }
        },
        _ => 0,
    }
}

/// Counts the annotations that the pages list, wrapping around as a
/// `usize` does.
pub fn count_annotations(doc: &PdfDocument, pages: &Vec<(u32, ObjectId)>) -> (r: usize)
    ensures
        r as nat == wrapped_count(annotation_total(*doc, pages@)),
{
    let mut count: usize = 0;
    let mut i: usize = 0;
    assert(pages@.take(0) =~= Seq::<(u32, ObjectId)>::empty());
    while i < pages.len()
        invariant
            i <= pages@.len(),
            count as nat == wrapped_count(annotation_total(*doc, pages@.take(i as int))),
        decreases pages@.len() - i,
    {
        let n = page_annotation_count_exec(doc, pages[i].1);
        let ghost before = annotation_total(*doc, pages@.take(i as int));
        assert(pages@.take(i + 1).drop_last() =~= pages@.take(i as int));
        assert(pages@.take(i + 1).last() == pages@[i as int]);
        proof {
            let m = usize::MAX as int + 1;
            vstd::arithmetic::div_mod::lemma_add_mod_noop(before as int, n as int, m);
            vstd::arithmetic::div_mod::lemma_small_mod(n as nat, m as nat);
            vstd::arithmetic::div_mod::lemma_mod_bound(before as int + n as int, m);
            if count as int + n as int >= m {
                vstd::arithmetic::div_mod::lemma_mod_sub_multiples_vanish(count as int + n as int, m);
                vstd::arithmetic::div_mod::lemma_small_mod((count as int + n as int - m) as nat, m as nat);
            } else {
                vstd::arithmetic::div_mod::lemma_small_mod((count as int + n as int) as nat, m as nat);
            }
        }
        count = count.wrapping_add(n);
        i = i + 1;
    }
    assert(pages@.take(pages@.len() as int) =~= pages@);
    count
}

/// The name shown for a file: its file name, or `unknown.pdf` when the
/// path has none.
pub fn display_name(name: Option<String>) -> (r: String)
    ensures
        r@ == match name {
            Some(n) => n@,
            None => "unknown.pdf"@,
        },
{
    match name {
        Some(n) => n,
        None => String::from_str("unknown.pdf"),
    }
}

/// What the file list shows for a document read from `path`: its path, its
/// file name, the number of its pages, how many annotations they list, and
/// the pending status.
pub fn get_pdf_info(doc: &PdfDocument, path: &str, lang: Language) -> (r: PdfInfo)
    ensures
        r.path@ == path@,
        plain_file(path@) ==> r.name@ == last_name(path@),
        r.pages as nat == page_tree(*doc).len(),
        r.annotations as nat == wrapped_count(annotation_total(*doc, page_tree(*doc))),
        r.status@ == choose_text(lang, "等待中"@, "Pending"@),
{
    let pages = get_pages(doc);
    let page_count = pages.len();
    let annotation_count = count_annotations(doc, &pages);
    let name = display_name(file_name(path));
    PdfInfo {
        path: String::from_str(path),
        name,
        pages: page_count,
        annotations: annotation_count,
        status: String::from_str(status_pending(lang)),
    }
}

} // verus!
