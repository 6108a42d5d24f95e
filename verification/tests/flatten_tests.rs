use pdf_flatten::i18n::Language;
use pdf_flatten::model::{ObjectError, PdfDict, PdfDocument, PdfObject, PdfStream};
use pdf_flatten::pdf::flatten::{
    flatten_page, flatten_pages, flatten_pdf, get_content_from_object, get_stream_content,
    output_path, flattened_file_name,
};

fn name(s: &str) -> PdfObject {
    PdfObject::Scalar(lopdf::Object::Name(s.as_bytes().to_vec()))
}

fn dict(entries: Vec<(&str, PdfObject)>) -> PdfDict {
    PdfDict { entries: entries.into_iter().map(|(k, v)| (k.as_bytes().to_vec(), v)).collect() }
}

fn raw_stream(content: &str) -> PdfObject {
    PdfObject::Stream(PdfStream { dict: PdfDict::new(), content: content.as_bytes().to_vec(), allows_compression: true })
}

fn lookup<'a>(doc: &'a PdfDocument, id: (u32, u16)) -> &'a PdfObject {
    &doc.objects.iter().rev().find(|(i, _)| *i == id).unwrap().1
}

fn dict_get<'a>(d: &'a PdfDict, key: &str) -> Option<&'a PdfObject> {
    d.entries.iter().find(|(k, _)| k.as_slice() == key.as_bytes()).map(|(_, v)| v)
}

/// A document with one page (object 3) whose content is object 4 and which
/// has one annotation (object 5) with an appearance stream (object 6).
fn one_page_doc() -> PdfDocument {
    let catalog = dict(vec![("Type", name("Catalog")), ("Pages", PdfObject::Reference((2, 0)))]);
    let pages = dict(vec![
        ("Type", name("Pages")),
        ("Kids", PdfObject::Array(vec![PdfObject::Reference((3, 0))])),
        ("Count", PdfObject::Scalar(lopdf::Object::Integer(1))),
    ]);
    let page = dict(vec![
        ("Type", name("Page")),
        ("Parent", PdfObject::Reference((2, 0))),
        ("Contents", PdfObject::Reference((4, 0))),
        ("Annots", PdfObject::Array(vec![PdfObject::Reference((5, 0))])),
    ]);
    let annot = dict(vec![
        ("Type", name("Annot")),
        ("AP", PdfObject::Dictionary(dict(vec![("N", PdfObject::Reference((6, 0)))]))),
    ]);
    PdfDocument {
        objects: vec![
            ((1, 0), PdfObject::Dictionary(catalog)),
            ((2, 0), PdfObject::Dictionary(pages)),
            ((3, 0), PdfObject::Dictionary(page)),
            ((4, 0), raw_stream("BT ET")),
            ((5, 0), PdfObject::Dictionary(annot)),
            ((6, 0), raw_stream("AP")),
        ],
        max_id: 6,
        trailer: dict(vec![("Root", PdfObject::Reference((1, 0)))]),
    }
}

#[test]
fn flatten_page_appends_appearance_and_removes_annotations() {
    let mut doc = one_page_doc();
    let r = flatten_page(&mut doc, (3, 0), Language::English);
    assert!(r.is_ok());
    assert_eq!(doc.max_id, 7);
    let new_stream = match lookup(&doc, (7, 0)) {
        PdfObject::Stream(s) => s,
        _ => panic!("no new stream"),
    };
    assert_eq!(new_stream.content, b"q\nBT ET\nQ\nq\nAP\nQ\n".to_vec());
    match dict_get(&new_stream.dict, "Length") {
        Some(PdfObject::Scalar(lopdf::Object::Integer(n))) => assert_eq!(*n, new_stream.content.len() as i64),
        _ => panic!("no length"),
    }
    let page = match lookup(&doc, (3, 0)) {
        PdfObject::Dictionary(d) => d,
        _ => panic!("page is not a dictionary"),
    };
    assert!(dict_get(page, "Annots").is_none());
    assert!(matches!(dict_get(page, "Contents"), Some(PdfObject::Reference((7, 0)))));
    // The page's other entries stay.
    assert!(dict_get(page, "Type").is_some());
    assert!(dict_get(page, "Parent").is_some());
}

#[test]
fn flattened_page_content_reads_back() {
    let mut doc = one_page_doc();
    flatten_page(&mut doc, (3, 0), Language::English).unwrap();
    let contents_id = match lookup(&doc, (3, 0)) {
        PdfObject::Dictionary(d) => match dict_get(d, "Contents") {
            Some(PdfObject::Reference(id)) => *id,
            _ => panic!("no contents reference"),
        },
        _ => panic!("page is not a dictionary"),
    };
    let bytes = get_content_from_object(&doc, &PdfObject::Reference(contents_id)).unwrap();
    assert_eq!(bytes, b"q\nBT ET\nQ\nq\nAP\nQ\n".to_vec());
}

#[test]
fn flatten_page_twice_changes_nothing_more() {
    let mut doc = one_page_doc();
    flatten_page(&mut doc, (3, 0), Language::English).unwrap();
    let objects = doc.objects.len();
    let max_id = doc.max_id;
    flatten_page(&mut doc, (3, 0), Language::English).unwrap();
    assert_eq!(doc.objects.len(), objects);
    assert_eq!(doc.max_id, max_id);
}

#[test]
fn flatten_page_without_appearances_only_removes_annotations() {
    let mut doc = one_page_doc();
    // The annotation has no appearance dictionary.
    doc.objects[4] = ((5, 0), PdfObject::Dictionary(dict(vec![("Type", name("Annot"))])));
    flatten_page(&mut doc, (3, 0), Language::English).unwrap();
    assert_eq!(doc.max_id, 6);
    assert_eq!(doc.objects.len(), 6);
    match lookup(&doc, (3, 0)) {
        PdfObject::Dictionary(d) => {
            assert!(dict_get(d, "Annots").is_none());
            assert!(matches!(dict_get(d, "Contents"), Some(PdfObject::Reference((4, 0)))));
        },
        _ => panic!(),
    }
}

#[test]
fn page_without_appearances_reads_as_before() {
    let mut doc = one_page_doc();
    doc.objects[4] = ((5, 0), PdfObject::Dictionary(dict(vec![("Type", name("Annot"))])));
    let before = get_content_from_object(&doc, &PdfObject::Reference((4, 0))).unwrap();
    flatten_page(&mut doc, (3, 0), Language::English).unwrap();
    let after = get_content_from_object(&doc, &PdfObject::Reference((4, 0))).unwrap();
    assert_eq!(before, b"BT ET".to_vec());
    assert_eq!(after, before);
}

#[test]
fn flatten_page_with_empty_annotations_is_left_alone() {
    let mut doc = one_page_doc();
    if let PdfObject::Dictionary(d) = &mut doc.objects[2].1 {
        d.entries[3].1 = PdfObject::Array(vec![]);
    }
    flatten_page(&mut doc, (3, 0), Language::English).unwrap();
    match lookup(&doc, (3, 0)) {
        PdfObject::Dictionary(d) => assert!(matches!(dict_get(d, "Annots"), Some(PdfObject::Array(a)) if a.is_empty())),
        _ => panic!(),
    }
}

#[test]
fn flatten_page_of_missing_object_reports_lookup_error() {
    let mut doc = one_page_doc();
    let r = flatten_page(&mut doc, (42, 0), Language::English);
    assert_eq!(r, Err("Failed to get page object: A required object was not found".to_string()));
    let r = flatten_page(&mut doc, (42, 0), Language::Chinese);
    assert_eq!(r, Err("无法获取页面对象: A required object was not found".to_string()));
}

#[test]
fn flatten_page_with_broken_contents_reports_dereference_error() {
    let mut doc = one_page_doc();
    doc.objects.remove(3); // object 4, the page's content
    let r = flatten_page(&mut doc, (3, 0), Language::English);
    assert_eq!(r, Err("Failed to dereference object: ObjectNotFound".to_string()));
}

#[test]
fn content_of_array_joins_streams_with_line_breaks() {
    let mut doc = one_page_doc();
    doc.objects.push(((8, 0), PdfObject::Array(vec![PdfObject::Reference((6, 0))])));
    let contents = PdfObject::Array(vec![
        PdfObject::Reference((4, 0)),
        raw_stream("X"),
        PdfObject::Reference((8, 0)),
        name("Ignored"),
    ]);
    let c = get_content_from_object(&doc, &contents).unwrap();
    assert_eq!(c, b"BT ET\nX\nAP\n".to_vec());
}

#[test]
fn content_of_cyclic_arrays_is_reference_limit() {
    let mut doc = one_page_doc();
    doc.objects.push(((8, 0), PdfObject::Array(vec![PdfObject::Reference((8, 0))])));
    let r = get_content_from_object(&doc, &PdfObject::Reference((8, 0)));
    assert_eq!(r, Err(ObjectError::ReferenceLimit));
}

#[test]
fn content_of_other_objects_is_empty() {
    let doc = one_page_doc();
    assert_eq!(get_content_from_object(&doc, &name("X")).unwrap(), Vec::<u8>::new());
    assert_eq!(get_content_from_object(&doc, &PdfObject::Reference((9, 0))), Err(ObjectError::ObjectNotFound));
}

#[test]
fn stream_content_is_decoded_when_compressed() {
    let mut s = lopdf::Stream::new(lopdf::Dictionary::new(), b"0 0 m 10 10 l S ".repeat(20));
    s.compress().unwrap();
    assert!(s.dict.get(b"Filter").is_ok());
    let model = PdfStream {
        dict: dict(vec![("Filter", name("FlateDecode"))]),
        content: s.content.clone(),
        allows_compression: true,
    };
    assert_ne!(model.content, b"0 0 m 10 10 l S ".repeat(20));
    assert_eq!(get_stream_content(&model), b"0 0 m 10 10 l S ".repeat(20));
}

#[test]
fn stream_content_falls_back_to_stored_bytes() {
    let model = PdfStream {
        dict: dict(vec![("Filter", name("NoSuchFilter"))]),
        content: b"raw".to_vec(),
        allows_compression: true,
    };
    assert_eq!(get_stream_content(&model), b"raw".to_vec());
}

#[test]
fn stream_without_filter_is_read_as_stored() {
    let mut s = lopdf::Stream::new(lopdf::Dictionary::new(), b"0 0 m 10 10 l S ".repeat(20));
    s.compress().unwrap();
    let model = PdfStream {
        dict: dict(vec![("Length", PdfObject::Scalar(lopdf::Object::Integer(s.content.len() as i64)))]),
        content: s.content.clone(),
        allows_compression: true,
    };
    assert_eq!(get_stream_content(&model), s.content);
}

#[test]
fn ascii85_stream_is_decoded() {
    let model = PdfStream {
        dict: dict(vec![("Filter", name("ASCII85Decode"))]),
        content: b"87cURD_*#CCghF-ASu'i+EqaECh*~>".to_vec(),
        allows_compression: true,
    };
    assert_eq!(get_stream_content(&model), b"Hello, flattened world".to_vec());
}

#[test]
fn overflowing_ascii85_group_reads_as_stored() {
    let model = PdfStream {
        dict: dict(vec![("Filter", name("ASCII85Decode"))]),
        content: b"uuuuu".to_vec(),
        allows_compression: true,
    };
    assert_eq!(get_stream_content(&model), b"uuuuu".to_vec());
    // A short last group is padded with `u`, which can overflow too.
    let model = PdfStream {
        dict: dict(vec![("Filter", PdfObject::Array(vec![name("ASCII85Decode")]))]),
        content: b"uu".to_vec(),
        allows_compression: true,
    };
    assert_eq!(get_stream_content(&model), b"uu".to_vec());
}

#[test]
fn oversized_predictor_rows_read_as_stored() {
    let mut s = lopdf::Stream::new(lopdf::Dictionary::new(), b"0 0 m 10 10 l S ".repeat(20));
    s.compress().unwrap();
    let parms = dict(vec![
        ("Predictor", PdfObject::Scalar(lopdf::Object::Integer(12))),
        ("Columns", PdfObject::Scalar(lopdf::Object::Integer(i64::MAX))),
        ("Colors", PdfObject::Scalar(lopdf::Object::Integer(3))),
    ]);
    let model = PdfStream {
        dict: dict(vec![("Filter", name("FlateDecode")), ("DecodeParms", PdfObject::Dictionary(parms))]),
        content: s.content.clone(),
        allows_compression: true,
    };
    assert_eq!(get_stream_content(&model), s.content);
}

/// A zlib stream that stores `data` in one uncompressed block.
fn stored_zlib(data: &[u8]) -> Vec<u8> {
    let mut out = vec![0x78u8, 0x01, 0x01];
    let n = data.len() as u16;
    out.extend_from_slice(&n.to_le_bytes());
    out.extend_from_slice(&(!n).to_le_bytes());
    out.extend_from_slice(data);
    let (mut a, mut b) = (1u32, 0u32);
    for &x in data {
        a = (a + x as u32) % 65521;
        b = (b + a) % 65521;
    }
    out.extend_from_slice(&((b << 16) | a).to_be_bytes());
    out
}

#[test]
fn chained_flate_stages_are_decoded() {
    let text = b"0 0 m 10 10 l S ".repeat(20);
    // The inner layer stores the text; the outer layer compresses that.
    let inner = stored_zlib(&text);
    let mut outer = lopdf::Stream::new(lopdf::Dictionary::new(), inner);
    outer.compress().unwrap();
    assert!(outer.dict.get(b"Filter").is_ok());
    let two = PdfStream {
        dict: dict(vec![("Filter", PdfObject::Array(vec![name("FlateDecode"), name("FlateDecode")]))]),
        content: outer.content.clone(),
        allows_compression: true,
    };
    assert_eq!(get_stream_content(&two), text);
}

#[test]
fn ascii85_after_another_filter_reads_as_stored() {
    let model = PdfStream {
        dict: dict(vec![("Filter", PdfObject::Array(vec![name("FlateDecode"), name("ASCII85Decode")]))]),
        content: b"raw".to_vec(),
        allows_compression: true,
    };
    assert_eq!(get_stream_content(&model), b"raw".to_vec());
}

#[test]
fn flatten_pdf_flattens_every_page_and_keeps_path() {
    let mut doc = one_page_doc();
    let out = flatten_pdf(&mut doc, "/tmp/in.pdf", false, Language::English).unwrap();
    assert_eq!(out, "/tmp/in.pdf");
    match lookup(&doc, (3, 0)) {
        PdfObject::Dictionary(d) => assert!(dict_get(d, "Annots").is_none()),
        _ => panic!(),
    }
}

#[test]
fn flatten_pdf_names_a_copy_when_keeping_the_input() {
    let mut doc = one_page_doc();
    let out = flatten_pdf(&mut doc, "/tmp/dir/report.pdf", true, Language::English).unwrap();
    assert_eq!(out, "/tmp/dir/report_flattened.pdf");
}

#[test]
fn output_path_defaults() {
    assert_eq!(output_path("a.pdf", false), "a.pdf");
    assert_eq!(output_path("/x/y/doc.PDF", true), "/x/y/doc_flattened.PDF");
    assert_eq!(output_path("/x/y/noext", true), "/x/y/noext_flattened.pdf");
    assert_eq!(flattened_file_name(&None, &None), "output_flattened.pdf");
    assert_eq!(flattened_file_name(&Some("s".to_string()), &Some("e".to_string())), "s_flattened.e");
}

#[test]
fn kept_copy_is_named_from_stem_and_extension() {
    assert_eq!(output_path("docs/report.pdf", true), "docs/report_flattened.pdf");
    assert_eq!(output_path("report.pdf", true), "report_flattened.pdf");
    assert_eq!(output_path("/report.pdf", true), "/report_flattened.pdf");
    assert_eq!(output_path("d/a.b.c", true), "d/a.b_flattened.c");
    assert_eq!(output_path("d/.hidden", true), "d/.hidden_flattened.pdf");
    assert_eq!(output_path("d/a.", true), "d/a_flattened.");
    assert_ne!(output_path("docs/report.pdf", true), "docs/report.pdf");
}

#[test]
fn flatten_pages_reports_failing_page_number() {
    let mut doc = one_page_doc();
    let pages = vec![(1u32, (3u32, 0u16)), (2u32, (99u32, 0u16))];
    let r = flatten_pages(&mut doc, &pages, Language::English);
    assert_eq!(r, Err("Error processing page 2: Failed to get page object: A required object was not found".to_string()));
    let mut doc = one_page_doc();
    let r = flatten_pages(&mut doc, &pages, Language::Chinese);
    assert_eq!(r, Err("处理第 2 页时出错: 无法获取页面对象: A required object was not found".to_string()));
}

#[test]
fn content_of_deeply_nested_arrays_is_read_in_full() {
    let mut doc = one_page_doc();
    // Object 100 holds the stream 4; each of 101..=150 holds the one below it.
    doc.objects.push(((100, 0), PdfObject::Array(vec![PdfObject::Reference((4, 0))])));
    for n in 101u32..=150 {
        doc.objects.push(((n, 0), PdfObject::Array(vec![PdfObject::Reference((n - 1, 0))])));
    }
    let c = get_content_from_object(&doc, &PdfObject::Reference((150, 0))).unwrap();
    assert_eq!(c, b"BT ET\n".to_vec());
}

#[test]
fn flatten_page_leaves_non_dictionary_pages_and_referenced_annotations() {
    let mut doc = one_page_doc();
    doc.objects.push(((20, 0), raw_stream("not a page")));
    flatten_page(&mut doc, (20, 0), Language::English).unwrap();
    assert_eq!(doc.objects.len(), 7);
    // Annots given by reference to an array is not an array itself: left as it is.
    if let PdfObject::Dictionary(d) = &mut doc.objects[2].1 {
        d.entries[3].1 = PdfObject::Reference((21, 0));
    }
    doc.objects.push(((21, 0), PdfObject::Array(vec![PdfObject::Reference((5, 0))])));
    flatten_page(&mut doc, (3, 0), Language::English).unwrap();
    assert_eq!(doc.max_id, 6);
    match lookup(&doc, (3, 0)) {
        PdfObject::Dictionary(d) => assert!(matches!(dict_get(d, "Annots"), Some(PdfObject::Reference((21, 0))))),
        _ => panic!(),
    }
}

#[test]
fn flatten_page_through_a_reference_changes_the_target() {
    let mut doc = one_page_doc();
    doc.objects.push(((30, 0), PdfObject::Reference((3, 0))));
    flatten_page(&mut doc, (30, 0), Language::English).unwrap();
    assert!(matches!(lookup(&doc, (30, 0)), PdfObject::Reference((3, 0))));
    match lookup(&doc, (3, 0)) {
        PdfObject::Dictionary(d) => {
            assert!(dict_get(d, "Annots").is_none());
            assert!(matches!(dict_get(d, "Contents"), Some(PdfObject::Reference((7, 0)))));
        },
        _ => panic!(),
    }
}
