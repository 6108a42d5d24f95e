use pdf_flatten::app::{is_pdf_extension, AppState, ProcessingState, is_pdf_path};
use pdf_flatten::i18n::{
    btn_start, detect_language, err_deref_object, err_get_page, err_load_pdf, err_modify_page,
    err_process_file, err_process_page, err_read_file, err_save_pdf, is_chinese, processing,
    processing_done, status_pending, title, Language, LocaleSettings, WindowsLocale,
};
use pdf_flatten::model::{ObjectError, PdfDict, PdfDocument, PdfObject};
use pdf_flatten::pdf::types::{count_annotations, display_name, get_pdf_info, PdfInfo};
use pdf_flatten::pdf::flatten::{flatten_page, get_content_from_object};
use pdf_flatten::pdf::flatten::flatten_pdf;
use pdf_flatten::text::decimal_string;
use pdf_flatten::ui::{FileList, ProgressView};

fn name(s: &str) -> PdfObject {
    PdfObject::Scalar(lopdf::Object::Name(s.as_bytes().to_vec()))
}

fn dict(entries: Vec<(&str, PdfObject)>) -> PdfDict {
    PdfDict { entries: entries.into_iter().map(|(k, v)| (k.as_bytes().to_vec(), v)).collect() }
}

/// Two pages: object 3 lists two annotations, object 4 lists none.
fn two_page_doc() -> PdfDocument {
    let catalog = dict(vec![("Type", name("Catalog")), ("Pages", PdfObject::Reference((2, 0)))]);
    let pages = dict(vec![
        ("Type", name("Pages")),
        ("Kids", PdfObject::Array(vec![PdfObject::Reference((3, 0)), PdfObject::Reference((4, 0))])),
    ]);
    let page1 = dict(vec![
        ("Type", name("Page")),
        ("Annots", PdfObject::Array(vec![PdfObject::Reference((5, 0)), PdfObject::Reference((5, 0))])),
    ]);
    let page2 = dict(vec![("Type", name("Page"))]);
    PdfDocument {
        objects: vec![
            ((1, 0), PdfObject::Dictionary(catalog)),
            ((2, 0), PdfObject::Dictionary(pages)),
            ((3, 0), PdfObject::Dictionary(page1)),
            ((4, 0), PdfObject::Dictionary(page2)),
            ((5, 0), PdfObject::Dictionary(dict(vec![("Type", name("Annot"))]))),
        ],
        max_id: 5,
        trailer: dict(vec![("Root", PdfObject::Reference((1, 0)))]),
    }
}

fn info(path: &str) -> PdfInfo {
    PdfInfo { path: path.to_string(), name: path.to_string(), pages: 1, annotations: 0, status: "Pending".to_string() }
}

fn env(values: Vec<Option<&str>>) -> LocaleSettings {
    LocaleSettings { env_values: values.into_iter().map(|v| v.map(|s| s.to_string())).collect(), windows: None }
}

#[test]
fn pages_are_found_through_the_page_tree() {
    let doc = two_page_doc();
    let pages = vec![(1u32, (3u32, 0u16)), (2u32, (4u32, 0u16))];
    assert_eq!(count_annotations(&doc, &pages), 2);
    assert_eq!(get_pdf_info(&doc, "x.pdf", Language::English).pages, 2);
    // A page tree that does not reach the pages finds none.
    let mut orphan = two_page_doc();
    orphan.trailer = PdfDict::new();
    assert_eq!(get_pdf_info(&orphan, "x.pdf", Language::English).pages, 0);
}

#[test]
fn pdf_info_counts_pages_and_annotations() {
    let doc = two_page_doc();
    let i = get_pdf_info(&doc, "/tmp/x/file.pdf", Language::English);
    assert_eq!(i.pages, 2);
    assert_eq!(i.annotations, 2);
    assert_eq!(i.name, "file.pdf");
    assert_eq!(i.path, "/tmp/x/file.pdf");
    assert_eq!(i.status, "Pending");
    let i = get_pdf_info(&doc, "/tmp/x/file.pdf", Language::Chinese);
    assert_eq!(i.status, "等待中");
}

#[test]
fn annotation_count_is_zero_after_flattening() {
    let mut doc = two_page_doc();
    flatten_pdf(&mut doc, "/tmp/x/file.pdf", false, Language::English).unwrap();
    assert_eq!(get_pdf_info(&doc, "/tmp/x/file.pdf", Language::English).annotations, 0);
}

#[test]
fn display_name_defaults_to_unknown() {
    assert_eq!(display_name(None), "unknown.pdf");
    assert_eq!(display_name(Some("a.pdf".to_string())), "a.pdf");
}

#[test]
fn lookup_error_texts_in_messages() {
    let mut doc = two_page_doc();
    for n in 10u32..200 {
        doc.objects.push(((n, 0), PdfObject::Reference((n + 1, 0))));
    }
    doc.objects.push(((200, 0), PdfObject::Dictionary(PdfDict::new())));
    let r = flatten_page(&mut doc, (10, 0), Language::English);
    assert_eq!(r, Err("Failed to get page object: Could not dereference an object; possible reference cycle".to_string()));
    // A cycle of content arrays.
    let mut doc = two_page_doc();
    doc.objects.push(((8, 0), PdfObject::Array(vec![PdfObject::Reference((8, 0))])));
    if let PdfObject::Dictionary(d) = &mut doc.objects[2].1 {
        d.entries.push((b"Contents".to_vec(), PdfObject::Reference((8, 0))));
    }
    doc.objects[4] = ((5, 0), PdfObject::Dictionary(PdfDict {
        entries: vec![(b"AP".to_vec(), PdfObject::Dictionary(PdfDict {
            entries: vec![(b"N".to_vec(), PdfObject::Stream(pdf_flatten::model::PdfStream {
                dict: PdfDict::new(), content: b"A".to_vec(), allows_compression: true }))],
        }))],
    }));
    let r = flatten_page(&mut doc, (3, 0), Language::English);
    assert_eq!(r, Err("Failed to dereference object: ReferenceLimit".to_string()));
    assert_eq!(get_content_from_object(&doc, &PdfObject::Reference((8, 0))), Err(ObjectError::ReferenceLimit));
}

#[test]
fn long_reference_chains_hit_the_limit() {
    let mut doc = two_page_doc();
    for n in 10u32..200 {
        doc.objects.push(((n, 0), PdfObject::Reference((n + 1, 0))));
    }
    doc.objects.push(((200, 0), PdfObject::Dictionary(PdfDict::new())));
    assert_eq!(doc.get_object((10, 0)).err(), Some(ObjectError::ReferenceLimit));
    assert!(doc.get_object((150, 0)).is_ok());
    assert_eq!(doc.get_object((300, 0)).err(), Some(ObjectError::ObjectNotFound));
}

#[test]
fn texts_in_both_languages() {
    assert_eq!(title(Language::English), "PDF Annotation Flattener");
    assert_eq!(title(Language::Chinese), "PDF 注释扁平化工具");
    assert_eq!(btn_start(Language::English), "Start Processing");
    assert_eq!(status_pending(Language::English), "Pending");
    assert_eq!(processing_done(Language::Chinese), "处理完成");
    assert_eq!(processing(Language::English, 3, 10), "Processing: 3/10");
    assert_eq!(processing(Language::Chinese, 0, 1234567), "处理中: 0/1234567");
    assert_eq!(err_load_pdf(Language::English, "bad"), "Failed to load PDF: bad");
    assert_eq!(err_save_pdf(Language::Chinese, "bad"), "无法保存 PDF: bad");
    assert_eq!(err_process_page(Language::Chinese, 12, "e"), "处理第 12 页时出错: e");
    assert_eq!(err_process_page(Language::English, 0, "e"), "Error processing page 0: e");
    assert_eq!(err_read_file(Language::English, "/a", "e"), "Failed to read /a: e");
    assert_eq!(err_process_file(Language::Chinese, "a.pdf", "e"), "处理 a.pdf 时出错: e");
    assert_eq!(err_process_file(Language::English, "a.pdf", "e"), "Error processing a.pdf: e");
    assert_eq!(err_get_page(Language::English, "e"), "Failed to get page object: e");
    assert_eq!(err_modify_page(Language::Chinese, "e"), "无法修改页面: e");
    assert_eq!(err_deref_object(Language::English, "e"), "Failed to dereference object: e");
    assert!(is_chinese(Language::Chinese));
    assert!(!is_chinese(Language::English));
    assert_eq!(decimal_string(u64::MAX), u64::MAX.to_string());
}

#[test]
fn language_from_environment() {
    assert_eq!(detect_language(&env(vec![Some("zh_CN.UTF-8"), None, None, None])), Language::Chinese);
    assert_eq!(detect_language(&env(vec![Some("en_US.UTF-8"), Some("zh_CN"), None, None])), Language::English);
    assert_eq!(detect_language(&env(vec![None, Some(""), Some("en_HK"), None])), Language::Chinese);
    assert_eq!(detect_language(&env(vec![None, None, None, Some("fr_FR")])), Language::English);
    assert_eq!(detect_language(&env(vec![None, None, None, None])), Language::English);
    assert_eq!(detect_language(&env(vec![Some("C"), None, None, None])), Language::English);
}

#[test]
fn language_from_windows_settings() {
    let w = |pref: Option<&str>, ui: Vec<Option<&str>>, sys: Option<&str>| LocaleSettings {
        env_values: vec![None, None, None, None],
        windows: Some(WindowsLocale {
            preferred_ui_languages: pref.map(|s| s.to_string()),
            ui_values: ui.into_iter().map(|v| v.map(|s| s.to_string())).collect(),
            system_locale: sys.map(|s| s.to_string()),
        }),
    };
    assert_eq!(detect_language(&w(Some("ZH-TW"), vec![], None)), Language::Chinese);
    assert_eq!(detect_language(&w(None, vec![None, Some("Chinese (Simplified)"), None], None)), Language::Chinese);
    assert_eq!(detect_language(&w(None, vec![], Some("Zh-Hans-CN"))), Language::Chinese);
    assert_eq!(detect_language(&w(Some("en-US"), vec![Some("de")], Some("en-US"))), Language::English);
}

#[test]
fn file_list_keeps_each_path_once() {
    let mut s = AppState::new();
    assert!(s.keep_original && s.open_output_dir);
    assert_eq!(s.state, ProcessingState::Idle);
    assert!(!s.can_process());
    s.add_file(info("/a.pdf"));
    s.add_file(info("/b.pdf"));
    s.add_file(info("/a.pdf"));
    assert_eq!(s.files.len(), 2);
    assert!(s.can_process());
    FileList::remove(&mut s.files, 0);
    assert_eq!(s.files[0].path, "/b.pdf");
    s.record_read_error("/c.pdf", "boom");
    assert_eq!(s.error_message.as_deref(), Some("无法读取 /c.pdf: boom"));
    s.clear_list();
    assert!(s.files.is_empty());
    assert_eq!(s.state, ProcessingState::Idle);
    assert!(s.error_message.is_none());
}

#[test]
fn plain_paths_are_found_by_their_text() {
    let mut s = AppState::new();
    assert!(!s.contains_path("/d/a.pdf"));
    s.add_file(info("/d/a.pdf"));
    assert_eq!(s.files.len(), 1);
    assert!(s.contains_path("/d/a.pdf"));
    assert!(!s.contains_path("/d/b.pdf"));
    assert!(!s.contains_path("d/a.pdf"));
    s.add_file(info("/d/b.pdf"));
    assert_eq!(s.files.len(), 2);
    assert_eq!(s.files[1].path, "/d/b.pdf");
    // Texts that name the same path by its components count as present.
    assert!(s.contains_path("/d//a.pdf"));
    // Only files with the extension `pdf` are listed.
    s.add_file(info("/d/c.txt"));
    s.add_file(info("/d/c.PDF"));
    s.add_file(info("/d/noext"));
    assert_eq!(s.files.len(), 2);
}

#[test]
fn output_directory_is_the_first_files_parent() {
    let mut s = AppState::new();
    s.add_file(info("/x/y/a.pdf"));
    s.add_file(info("/z/b.pdf"));
    assert_eq!(s.output_directory(), Some("/x/y".to_string()));
    s.clear_list();
    s.add_file(info("/a.pdf"));
    assert_eq!(s.output_directory(), Some("/".to_string()));
    s.clear_list();
    s.add_file(info("a.pdf"));
    assert_eq!(s.output_directory(), Some("".to_string()));
}

#[test]
fn processing_steps_visit_each_file_once_in_order() {
    let mut s = AppState::new();
    assert_eq!(s.next_file(), None);
    s.add_file(info("/d/a.pdf"));
    s.add_file(info("/d/b.pdf"));
    s.add_file(info("/d/c.pdf"));
    assert_eq!(s.next_file(), None);
    assert!(s.begin_processing());
    let mut seen = Vec::new();
    while let Some(i) = s.next_file() {
        s.file_started(i);
        seen.push(i);
        let result = if i == 1 { Err("bad".to_string()) } else { Ok(()) };
        s.file_finished(i, result);
    }
    assert_eq!(seen, vec![0, 1, 2]);
    assert_eq!(s.files[0].status, "✅");
    assert_eq!(s.files[1].status, "❌");
    assert_eq!(s.files[2].status, "✅");
    s.finish_processing();
    assert_eq!(s.next_file(), None);
}

#[test]
fn reading_steps_add_in_order_and_keep_the_last_error() {
    let mut s = AppState::new();
    assert!(is_pdf_path("/d/a.pdf"));
    assert!(!is_pdf_path("/d/a.txt"));
    assert!(!is_pdf_path("/d/a.PDF"));
    s.file_read("/d/a.pdf", Ok(info("/d/a.pdf")));
    s.file_read("/d/x.pdf", Err("first".to_string()));
    s.file_read("/d/b.pdf", Ok(info("/d/b.pdf")));
    s.file_read("/d/y.pdf", Err("second".to_string()));
    s.file_read("/d/a.pdf", Ok(info("/d/a.pdf")));
    assert_eq!(s.files.iter().map(|f| f.path.as_str()).collect::<Vec<_>>(), vec!["/d/a.pdf", "/d/b.pdf"]);
    assert_eq!(s.error_message.as_deref(), Some("无法读取 /d/y.pdf: second"));
}

#[test]
fn processing_records_each_outcome() {
    let mut s = AppState::new();
    assert!(!s.begin_processing());
    s.add_file(info("/d/a.pdf"));
    s.add_file(info("/d/b.pdf"));
    assert!(s.begin_processing());
    assert_eq!(s.state, ProcessingState::Processing);
    assert_eq!(s.total_files, 2);
    assert!(!s.can_process());
    s.file_started(0);
    assert_eq!(s.current_file, 1);
    s.file_finished(0, Ok(()));
    s.file_started(1);
    s.file_finished(1, Err("bad".to_string()));
    s.finish_processing();
    assert_eq!(s.state, ProcessingState::Done);
    assert_eq!(s.files[0].status, "✅");
    assert_eq!(s.files[1].status, "❌");
    assert_eq!(s.error_message.as_deref(), Some("处理 /d/b.pdf 时出错: bad"));
    assert_eq!(s.output_directory(), Some("/d".to_string()));
    s.open_output_dir = false;
    assert_eq!(s.output_directory(), None);
}

#[test]
fn pdf_extension_is_exact() {
    assert!(is_pdf_extension(&Some("pdf".to_string())));
    assert!(!is_pdf_extension(&Some("PDF".to_string())));
    assert!(!is_pdf_extension(&None));
}

#[test]
fn progress_labels() {
    assert_eq!(ProgressView::label(Language::English, ProcessingState::Idle, 1, 2), None);
    assert_eq!(ProgressView::label(Language::English, ProcessingState::Processing, 1, 2), Some("Processing: 1/2".to_string()));
    assert_eq!(ProgressView::label(Language::English, ProcessingState::Done, 2, 2), Some("Processing complete".to_string()));
}
