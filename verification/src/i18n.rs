//! The interface texts in Chinese and English, and the choice between them.
use vstd::prelude::*;
use crate::text::{concat2, contains, decimal, decimal_string, has_prefix, has_substring, lowercase, starts_with, to_lowercase};

verus! {

/// The language of the interface.
#[derive(Clone, Copy, PartialEq, Eq, Structural, Debug)]
pub enum Language {
    Chinese,
    English,
}

/// The Chinese text in Chinese, the English one otherwise.
pub open spec fn choose_text(lang: Language, zh: Seq<char>, en: Seq<char>) -> Seq<char> {
    if lang == Language::Chinese {
        zh
    } else {
        en
    }
}

/// Whether the interface is in Chinese.
pub fn is_chinese(lang: Language) -> (r: bool)
    ensures
        r == (lang == Language::Chinese),
{
    lang == Language::Chinese
}

// ---------------------------------------------------------------------
// Choosing the language
// ---------------------------------------------------------------------

/// The settings of the user's locale that decide the language.
pub struct LocaleSettings {
    /// The values of `LANG`, `LC_ALL`, `LC_MESSAGES` and `LANGUAGE`, in this
    /// order; `None` where a variable is unset or not valid Unicode.
    pub env_values: Vec<Option<String>>,
    /// What is consulted on Windows only; `None` elsewhere.
    pub windows: Option<WindowsLocale>,
}

/// The locale settings that only Windows consults.
pub struct WindowsLocale {
    /// The value of `PreferredUILanguages`.
    pub preferred_ui_languages: Option<String>,
    /// The values of `UI_LANGUAGE`, `MUI` and `SystemLocale`, in this order.
    pub ui_values: Vec<Option<String>>,
    /// The user's locale as the system reports it.
    pub system_locale: Option<String>,
}

/// A locale value that names Chinese: it starts with `zh` or mentions
/// `CN`, `TW` or `HK`.
pub open spec fn names_chinese(v: Seq<char>) -> bool {
    has_prefix(v, "zh"@) || has_substring(v, "CN"@) || has_substring(v, "TW"@) || has_substring(v, "HK"@)
}

/// The language that the first decisive variable gives, in order: one that
/// names Chinese gives Chinese, any other non-empty one gives English;
/// unset and empty variables are passed over.
pub open spec fn env_choice(values: Seq<Option<String>>) -> Option<Language>
    decreases values.len(),
{
    if values.len() == 0 {
        None
    } else {
        match values[0] {
            Some(v) => if names_chinese(v@) {
                Some(Language::Chinese)
            } else if v@.len() > 0 && !has_prefix(v@, "zh"@) {
                Some(Language::English)
            } else {
                env_choice(values.drop_first())
            },
            None => env_choice(values.drop_first()),
        }
    }
}

/// A Windows setting that names Chinese.
pub open spec fn ui_value_chinese(v: Option<String>) -> bool {
    v matches Some(s) && (has_substring(lowercase(s@), "zh"@) || has_substring(lowercase(s@), "chinese"@))
}

/// The Windows settings name Chinese.
pub open spec fn windows_chinese(w: WindowsLocale) -> bool {
    ||| (w.preferred_ui_languages matches Some(p) && has_prefix(lowercase(p@), "zh"@))
    ||| (exists|i: int| 0 <= i < w.ui_values@.len() && ui_value_chinese(#[trigger] w.ui_values@[i]))
    ||| (w.system_locale matches Some(l) && has_prefix(lowercase(l@), "zh"@))
}

/// The language of the interface for these settings: the environment
/// variables first, then (on Windows) the system's settings, else English.
pub open spec fn detected_language(s: LocaleSettings) -> Language {
    match env_choice(s.env_values@) {
        Some(l) => l,
        None => match s.windows {
            Some(w) => if windows_chinese(w) {
                Language::Chinese
            } else {
                Language::English
            },
            None => Language::English,
        },
    }
}

fn names_chinese_exec(v: &String) -> (r: bool)
    ensures
        r == names_chinese(v@),
{
    let s = v.as_str();
    starts_with(s, "zh") || contains(s, "CN") || contains(s, "TW") || contains(s, "HK")
}

fn windows_chinese_exec(w: &WindowsLocale) -> (r: bool)
    ensures
        r == windows_chinese(*w),
{
    if let Some(p) = &w.preferred_ui_languages {
        let lower = to_lowercase(p.as_str());
        if starts_with(lower.as_str(), "zh") {
            return true;
        }
    }
    let mut i: usize = 0;
    while i < w.ui_values.len()
        invariant
            i <= w.ui_values@.len(),
            forall|j: int| 0 <= j < i ==> !ui_value_chinese(#[trigger] w.ui_values@[j]),
        decreases w.ui_values@.len() - i,
    {
        if let Some(v) = &w.ui_values[i] {
            let lower = to_lowercase(v.as_str());
            if contains(lower.as_str(), "zh") || contains(lower.as_str(), "chinese") {
                assert(ui_value_chinese(w.ui_values@[i as int]));
                return true;
            }
        }
        i = i + 1;
    }
    if let Some(l) = &w.system_locale {
        let lower = to_lowercase(l.as_str());
        if starts_with(lower.as_str(), "zh") {
            return true;
        }
    }
    false
}

/// Chooses the interface language from the locale settings.
pub fn detect_language(s: &LocaleSettings) -> (r: Language)
    ensures
        r == detected_language(*s),
{
    let mut i: usize = 0;
    assert(s.env_values@.skip(0) =~= s.env_values@);
    while i < s.env_values.len()
        invariant
            i <= s.env_values@.len(),
            env_choice(s.env_values@) == env_choice(s.env_values@.skip(i as int)),
        decreases s.env_values@.len() - i,
    {
        proof {
            assert(s.env_values@.skip(i as int).drop_first() =~= s.env_values@.skip(i + 1));
        }
        if let Some(v) = &s.env_values[i] {
            if names_chinese_exec(v) {
                return Language::Chinese;
            }
            if v.as_str().unicode_len() > 0 && !starts_with(v.as_str(), "zh") {
                return Language::English;
            }
        }
        i = i + 1;
    }
    proof {
        assert(s.env_values@.skip(i as int).len() == 0);
    }
    match &s.windows {
        Some(w) => if windows_chinese_exec(w) {
            Language::Chinese
        } else {
            Language::English
        },
        None => Language::English,
    }
}

// ---------------------------------------------------------------------
// Texts
// ---------------------------------------------------------------------

/// The progress text while file `current` of `total` is processed.
pub open spec fn processing_text(lang: Language, current: nat, total: nat) -> Seq<char> {
    choose_text(lang, "处理中: "@, "Processing: "@) + decimal(current) + "/"@ + decimal(total)
}

/// The progress text while file `current` of `total` is processed.
pub fn processing(lang: Language, current: usize, total: usize) -> (r: String)
    ensures
        r@ == processing_text(lang, current as nat, total as nat),
{
    let mut s = if is_chinese(lang) {
        String::from_str("处理中: ")
    } else {
        String::from_str("Processing: ")
    };
    let c = decimal_string(current as u64);
    let t = decimal_string(total as u64);
    s.append(c.as_str());
    s.append("/");
    s.append(t.as_str());
    s
}

/// The message when a page could not be processed.
pub open spec fn err_process_page_text(lang: Language, page: nat, e: Seq<char>) -> Seq<char> {
    if lang == Language::Chinese {
        "处理第 "@ + decimal(page) + " 页时出错: "@ + e
    } else {
        "Error processing page "@ + decimal(page) + ": "@ + e
    }
}

/// A page could not be processed.
pub fn err_process_page(lang: Language, page: u32, e: &str) -> (r: String)
    ensures
        r@ == err_process_page_text(lang, page as nat, e@),
{
    let n = decimal_string(page as u64);
    let mut s = if is_chinese(lang) {
        String::from_str("处理第 ")
    } else {
        String::from_str("Error processing page ")
    };
    s.append(n.as_str());
    if is_chinese(lang) {
        s.append(" 页时出错: ");
    } else {
        s.append(": ");
    }
    s.append(e);
    s
}

/// The message when a file could not be read.
pub open spec fn err_read_file_text(lang: Language, path: Seq<char>, e: Seq<char>) -> Seq<char> {
    choose_text(lang, "无法读取 "@, "Failed to read "@) + path + ": "@ + e
}

/// A file could not be read.
pub fn err_read_file(lang: Language, path: &str, e: &str) -> (r: String)
    ensures
        r@ == err_read_file_text(lang, path@, e@),
{
    let mut s = if is_chinese(lang) {
        String::from_str("无法读取 ")
    } else {
        String::from_str("Failed to read ")
    };
    s.append(path);
    s.append(": ");
    s.append(e);
    s
}

/// The message when a file could not be processed.
pub open spec fn err_process_file_text(lang: Language, name: Seq<char>, e: Seq<char>) -> Seq<char> {
    if lang == Language::Chinese {
        "处理 "@ + name + " 时出错: "@ + e
    } else {
        "Error processing "@ + name + ": "@ + e
    }
}

/// A file could not be processed.
pub fn err_process_file(lang: Language, name: &str, e: &str) -> (r: String)
    ensures
        r@ == err_process_file_text(lang, name@, e@),
{
    let mut s = if is_chinese(lang) {
        String::from_str("处理 ")
    } else {
        String::from_str("Error processing ")
    };
    s.append(name);
    if is_chinese(lang) {
        s.append(" 时出错: ");
    } else {
        s.append(": ");
    }
    s.append(e);
    s
}

/// The window title.
pub fn title(lang: Language) -> (r: &'static str)
    ensures
        r@ == choose_text(lang, "PDF 注释扁平化工具"@, "PDF Annotation Flattener"@),
{
    if is_chinese(lang) {
        "PDF 注释扁平化工具"
    } else {
        "PDF Annotation Flattener"
    }
}

/// The hint in the drop zone.
pub fn drop_hint(lang: Language) -> (r: &'static str)
    ensures
        r@ == choose_text(lang, "拖拽 PDF 文件到此处，或点击选择文件"@, "Drop PDF files here, or click to select"@),
{
    if is_chinese(lang) {
        "拖拽 PDF 文件到此处，或点击选择文件"
    } else {
        "Drop PDF files here, or click to select"
    }
}

/// The text of an empty file list.
pub fn no_files(lang: Language) -> (r: &'static str)
    ensures
        r@ == choose_text(lang, "暂无文件，请添加 PDF 文件"@, "No files added. Please add PDF files."@),
{
    if is_chinese(lang) {
        "暂无文件，请添加 PDF 文件"
    } else {
        "No files added. Please add PDF files."
    }
}

/// The file name column's heading.
pub fn col_filename(lang: Language) -> (r: &'static str)
    ensures
        r@ == choose_text(lang, "文件名"@, "Filename"@),
{
    if is_chinese(lang) {
        "文件名"
    } else {
        "Filename"
    }
}

/// The page count column's heading.
pub fn col_pages(lang: Language) -> (r: &'static str)
    ensures
        r@ == choose_text(lang, "页数"@, "Pages"@),
{
    if is_chinese(lang) {
        "页数"
    } else {
        "Pages"
    }
}

/// The annotation count column's heading.
pub fn col_annotations(lang: Language) -> (r: &'static str)
    ensures
        r@ == choose_text(lang, "注释"@, "Annotations"@),
{
    if is_chinese(lang) {
        "注释"
    } else {
        "Annotations"
    }
}

/// The status column's heading.
pub fn col_status(lang: Language) -> (r: &'static str)
    ensures
        r@ == choose_text(lang, "状态"@, "Status"@),
{
    if is_chinese(lang) {
        "状态"
    } else {
        "Status"
    }
}

/// The action column's heading.
pub fn col_action(lang: Language) -> (r: &'static str)
    ensures
        r@ == choose_text(lang, "操作"@, "Action"@),
{
    if is_chinese(lang) {
        "操作"
    } else {
        "Action"
    }
}

/// The label of the option that keeps the input files.
pub fn keep_original(lang: Language) -> (r: &'static str)
    ensures
        r@ == choose_text(lang, "保留原始文件"@, "Keep original files"@),
{
    if is_chinese(lang) {
        "保留原始文件"
    } else {
        "Keep original files"
    }
}

/// The label of the option that opens the output directory.
pub fn open_output_dir(lang: Language) -> (r: &'static str)
    ensures
        r@ == choose_text(lang, "处理后打开输出目录"@, "Open output directory after processing"@),
{
    if is_chinese(lang) {
        "处理后打开输出目录"
    } else {
        "Open output directory after processing"
    }
}

/// The start button's label.
pub fn btn_start(lang: Language) -> (r: &'static str)
    ensures
        r@ == choose_text(lang, "开始处理"@, "Start Processing"@),
{
    if is_chinese(lang) {
        "开始处理"
    } else {
        "Start Processing"
    }
}

/// The add-files button's label.
pub fn btn_add_files(lang: Language) -> (r: &'static str)
    ensures
        r@ == choose_text(lang, "选择文件"@, "Add Files"@),
{
    if is_chinese(lang) {
        "选择文件"
    } else {
        "Add Files"
    }
}

/// The clear button's label.
pub fn btn_clear(lang: Language) -> (r: &'static str)
    ensures
        r@ == choose_text(lang, "清除列表"@, "Clear List"@),
{
    if is_chinese(lang) {
        "清除列表"
    } else {
        "Clear List"
    }
}

/// The status of a file not yet processed.
pub fn status_pending(lang: Language) -> (r: &'static str)
    ensures
        r@ == choose_text(lang, "等待中"@, "Pending"@),
{
    if is_chinese(lang) {
        "等待中"
    } else {
        "Pending"
    }
}

/// The status of a file processed without error.
pub fn status_ok(lang: Language) -> (r: &'static str)
    ensures
        r@ == choose_text(lang, "完成"@, "OK"@),
{
    if is_chinese(lang) {
        "完成"
    } else {
        "OK"
    }
}

/// The status of a file whose processing failed.
pub fn status_error(lang: Language) -> (r: &'static str)
    ensures
        r@ == choose_text(lang, "错误"@, "ERR"@),
{
    if is_chinese(lang) {
        "错误"
    } else {
        "ERR"
    }
}

/// The progress text once processing is complete.
pub fn processing_done(lang: Language) -> (r: &'static str)
    ensures
        r@ == choose_text(lang, "处理完成"@, "Processing complete"@),
{
    if is_chinese(lang) {
        "处理完成"
    } else {
        "Processing complete"
    }
}

/// The message when a PDF file could not be loaded: the template with `e` after it.
pub open spec fn err_load_pdf_text(lang: Language, e: Seq<char>) -> Seq<char> {
    choose_text(lang, "无法加载 PDF: "@, "Failed to load PDF: "@) + e
}

/// A PDF file could not be loaded.
pub fn err_load_pdf(lang: Language, e: &str) -> (r: String)
    ensures
        r@ == err_load_pdf_text(lang, e@),
{
    if is_chinese(lang) {
        concat2("无法加载 PDF: ", e)
    } else {
        concat2("Failed to load PDF: ", e)
    }
}

/// The message when a PDF file could not be saved: the template with `e` after it.
pub open spec fn err_save_pdf_text(lang: Language, e: Seq<char>) -> Seq<char> {
    choose_text(lang, "无法保存 PDF: "@, "Failed to save PDF: "@) + e
}

/// A PDF file could not be saved.
pub fn err_save_pdf(lang: Language, e: &str) -> (r: String)
    ensures
        r@ == err_save_pdf_text(lang, e@),
{
    if is_chinese(lang) {
        concat2("无法保存 PDF: ", e)
    } else {
        concat2("Failed to save PDF: ", e)
    }
}

/// The message when a page object could not be looked up: the template with `e` after it.
pub open spec fn err_get_page_text(lang: Language, e: Seq<char>) -> Seq<char> {
    choose_text(lang, "无法获取页面对象: "@, "Failed to get page object: "@) + e
}

/// A page object could not be looked up.
pub fn err_get_page(lang: Language, e: &str) -> (r: String)
    ensures
        r@ == err_get_page_text(lang, e@),
{
    if is_chinese(lang) {
        concat2("无法获取页面对象: ", e)
    } else {
        concat2("Failed to get page object: ", e)
    }
}

/// The message when a page object could not be changed: the template with `e` after it.
pub open spec fn err_modify_page_text(lang: Language, e: Seq<char>) -> Seq<char> {
    choose_text(lang, "无法修改页面: "@, "Failed to modify page: "@) + e
}

/// A page object could not be changed.
pub fn err_modify_page(lang: Language, e: &str) -> (r: String)
    ensures
        r@ == err_modify_page_text(lang, e@),
{
    if is_chinese(lang) {
        concat2("无法修改页面: ", e)
    } else {
        concat2("Failed to modify page: ", e)
    }
}

/// The message when a reference could not be followed: the template with `e` after it.
pub open spec fn err_deref_object_text(lang: Language, e: Seq<char>) -> Seq<char> {
    choose_text(lang, "无法解引用对象: "@, "Failed to dereference object: "@) + e
}

/// A reference could not be followed.
pub fn err_deref_object(lang: Language, e: &str) -> (r: String)
    ensures
        r@ == err_deref_object_text(lang, e@),
{
    if is_chinese(lang) {
        concat2("无法解引用对象: ", e)
    } else {
        concat2("Failed to dereference object: ", e)
    }
}

} // verus!
