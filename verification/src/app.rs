//! The state of the application: the file list, the options, and the
//! progress of processing, with the decisions that change them.  Reading
//! files, flattening them and drawing the window are done by the caller,
//! which reports each outcome back.
use vstd::prelude::*;
use crate::i18n::{err_process_file, err_process_file_text, err_read_file, err_read_file_text, Language};
use crate::pdf::paths::{
    extension, last_name, name_extension, parent, pdf_tail_path, plain_file, plain_parent, plain_path,
    pdf_ext, same_path, sep_tail,
};
use crate::pdf::types::PdfInfo;

verus! {

/// Where processing stands.
#[derive(Clone, Copy, PartialEq, Eq, Structural, Debug)]
pub enum ProcessingState {
    Idle,
    Processing,
    Done,
}

/// The application's state (all but the fraction shown by the progress bar,
/// which is `current_file` of `total_files`).
#[derive(Debug)]
pub struct AppState {
    pub files: Vec<PdfInfo>,
    pub keep_original: bool,
    pub open_output_dir: bool,
    pub state: ProcessingState,
    pub current_file: usize,
    pub total_files: usize,
    pub error_message: Option<String>,
}

/// No two files in the list share a path.
pub open spec fn paths_distinct(files: Seq<PdfInfo>) -> bool {
    forall|i: int, j: int| 0 <= i < files.len() && 0 <= j < files.len() && i != j ==> files[i].path@ != files[j].path@
}

/// The list holds a file with this path.
pub open spec fn has_path(files: Seq<PdfInfo>, path: Seq<char>) -> bool {
    exists|i: int| 0 <= i < files.len() && files[i].path@ == path
}

/// Every file's path is plain (see `plain_path`).
pub open spec fn paths_plain(files: Seq<PdfInfo>) -> bool {
    forall|i: int| 0 <= i < files.len() ==> plain_path(#[trigger] files[i].path@)
}

/// The file name at the plain path `p` has the extension `pdf`.
pub open spec fn has_pdf_extension(p: Seq<char>) -> bool {
    name_extension(last_name(p)) == Some("pdf"@)
}

/// Every file with a plain path has the extension `pdf`.
pub open spec fn pdf_listed(files: Seq<PdfInfo>) -> bool {
    forall|i: int| 0 <= i < files.len() && plain_file(#[trigger] files[i].path@) ==> has_pdf_extension(files[i].path@)
}

/// The status shown for a file processed without error.
pub open spec fn status_done() -> Seq<char> {
    "✅"@
}

/// The status shown for a file whose processing failed.
pub open spec fn status_failed() -> Seq<char> {
    "❌"@
}

/// `new` is `old` with file `i`'s status set to `status`.
pub open spec fn status_set(old: Seq<PdfInfo>, new: Seq<PdfInfo>, i: int, status: Seq<char>) -> bool {
    &&& new.len() == old.len()
    &&& forall|j: int| 0 <= j < old.len() && j != i ==> new[j] == old[j]
    &&& new[i].path == old[i].path
    &&& new[i].name == old[i].name
    &&& new[i].pages == old[i].pages
    &&& new[i].annotations == old[i].annotations
    &&& new[i].status@ == status
}

/// Whether a path's extension makes it a PDF file: exactly `pdf`.
pub fn is_pdf_extension(ext: &Option<String>) -> (r: bool)
    ensures
        r == (ext matches Some(e) && e@ == "pdf"@),
{
    match ext {
        Some(e) => {
            let pdf = String::from_str("pdf");
            proof {
                reveal_strlit("pdf");
            }
            *e == pdf
        },
        None => false,
    }
}

/// No file of the list has a path that could name the same file as
/// `path`: each ends in a `.pdf` name other than the one `path` ends in.
pub open spec fn tails_differ(files: Seq<PdfInfo>, path: Seq<char>) -> bool {
    forall|i: int|
        0 <= i < files.len() ==> pdf_tail_path(#[trigger] files[i].path@) && sep_tail(files[i].path@) != sep_tail(
            path,
        )
}

/// `new` is `old` after a file that was read was offered to the list: the
/// list keeps its files in order and gains at most `info`, at the end; a
/// path it holds, or a plain path without the extension `pdf`, adds
/// nothing; a new plain `.pdf` path is added, and so is any path ending in
/// a `.pdf` name (Windows paths too) when no listed path ends in the same
/// name; every other field stays.
pub open spec fn file_added(old: AppState, new: AppState, info: PdfInfo) -> bool {
    &&& new.files@ == old.files@ || new.files@ == old.files@.push(info)
    &&& has_path(old.files@, info.path@) ==> new.files@ == old.files@
    &&& plain_file(info.path@) && !has_pdf_extension(info.path@) ==> new.files@ == old.files@
    &&& paths_plain(old.files@) && plain_file(info.path@) && has_pdf_extension(info.path@) && !has_path(
        old.files@,
        info.path@,
    ) ==> new.files@ == old.files@.push(info)
    &&& old.files@.len() == 0 && plain_file(info.path@) && has_pdf_extension(info.path@) ==> new.files@
        == old.files@.push(info)
    &&& pdf_tail_path(info.path@) && tails_differ(old.files@, info.path@) ==> new.files@ == old.files@.push(info)
    &&& paths_distinct(old.files@) ==> paths_distinct(new.files@)
    &&& pdf_listed(old.files@) ==> pdf_listed(new.files@)
    &&& new.keep_original == old.keep_original
    &&& new.open_output_dir == old.open_output_dir
    &&& new.state == old.state
    &&& new.current_file == old.current_file
    &&& new.total_files == old.total_files
    &&& new.error_message == old.error_message
}

/// Whether a path is one to read and list: its extension is exactly `pdf`
/// (`Path::extension`).
pub fn is_pdf_path(path: &str) -> (r: bool)
    ensures
        plain_file(path@) ==> r == has_pdf_extension(path@),
        pdf_tail_path(path@) ==> r,
{
    let ext = extension(path);
    proof {
        reveal_strlit("pdf");
        assert("pdf"@ =~= pdf_ext());
    }
    is_pdf_extension(&ext)
}

impl AppState {
    /// The state at start: no files, both options on, idle, no error.
    pub fn new() -> (s: AppState)
        ensures
            s.files@.len() == 0,
            s.keep_original,
            s.open_output_dir,
            s.state == ProcessingState::Idle,
            s.current_file == 0,
            s.total_files == 0,
            s.error_message is None,
    {
        AppState {
            files: Vec::new(),
            keep_original: true,
            open_output_dir: true,
            state: ProcessingState::Idle,
            current_file: 0,
            total_files: 0,
            error_message: None,
        }
    }

    /// Whether the list holds a file with the same path (`Path::eq`).
    pub fn contains_path(&self, path: &str) -> (r: bool)
        ensures
            has_path(self.files@, path@) ==> r,
            paths_plain(self.files@) && plain_path(path@) ==> r == has_path(self.files@, path@),
            self.files@.len() == 0 ==> !r,
            pdf_tail_path(path@) && tails_differ(self.files@, path@) ==> !r,
    {
        let mut i: usize = 0;
        while i < self.files.len()
            invariant
                i <= self.files@.len(),
                forall|j: int| 0 <= j < i ==> self.files@[j].path@ != path@,
            decreases self.files@.len() - i,
        {
            if same_path(self.files[i].path.as_str(), path) {
                proof {
                    if pdf_tail_path(path@) && tails_differ(self.files@, path@) {
                        assert(pdf_tail_path(self.files@[i as int].path@));
                        assert(sep_tail(self.files@[i as int].path@) != sep_tail(path@));
                    }
                    if paths_plain(self.files@) && plain_path(path@) {
                        assert(plain_path(self.files@[i as int].path@));
                        assert(self.files@[i as int].path@ == path@);
                    }
                }
                return true;
            }
            i = i + 1;
        }
        false
    }

    /// Adds a file that was read, when its extension is `pdf` and the list
    /// does not hold its path yet.
    pub fn add_file(&mut self, info: PdfInfo)
        ensures
            file_added(*old(self), *final(self), info),
    {
        let ext = extension(info.path.as_str());
        proof {
            reveal_strlit("pdf");
            assert("pdf"@ =~= pdf_ext());
        }
        if is_pdf_extension(&ext) && !self.contains_path(info.path.as_str()) {
            proof {
                if plain_file(info.path@) {
                    assert(has_pdf_extension(info.path@));
                }
            }
            let ghost before = self.files@;
            self.files.push(info);
            proof {
                if pdf_listed(before) {
                    assert forall|i: int| 0 <= i < self.files@.len() && plain_file(#[trigger] self.files@[i].path@)
                        implies has_pdf_extension(self.files@[i].path@) by {
                        if i < before.len() {
                            assert(self.files@[i] == before[i]);
                        } else {
                            assert(self.files@[i] == info);
                        }
                    }
                }
            }
        }
    }

    /// Records that the file at `path` could not be read.
    pub fn record_read_error(&mut self, path: &str, e: &str)
        ensures
            final(self).error_message matches Some(m) && m@ == err_read_file_text(Language::Chinese, path@, e@),
            final(self).files == old(self).files,
            final(self).state == old(self).state,
            final(self).keep_original == old(self).keep_original,
            final(self).open_output_dir == old(self).open_output_dir,
            final(self).current_file == old(self).current_file,
            final(self).total_files == old(self).total_files,
    {
        self.error_message = Some(err_read_file(Language::Chinese, path, e));
    }

    /// One step of adding files: the outcome of reading the file at `path`
    /// (asked for when `is_pdf_path` holds).  A file that was read is
    /// offered to the list (`add_file`); a failure becomes the error shown,
    /// so that of several failures the last one stays.
    pub fn file_read(&mut self, path: &str, result: Result<PdfInfo, String>)
        ensures
            match result {
                Ok(info) => file_added(*old(self), *final(self), info),
                Err(e) => {
                    &&& final(self).error_message matches Some(m)
                    &&& m@ == err_read_file_text(Language::Chinese, path@, e@)
                    &&& final(self).files == old(self).files
                    &&& final(self).state == old(self).state
                    &&& final(self).keep_original == old(self).keep_original
                    &&& final(self).open_output_dir == old(self).open_output_dir
                    &&& final(self).current_file == old(self).current_file
                    &&& final(self).total_files == old(self).total_files
                },
            },
    {
        match result {
            Ok(info) => self.add_file(info),
            Err(e) => self.record_read_error(path, e.as_str()),
        }
    }

    /// One step of processing: the file to process next, counting from 0.
    /// While processing, that is the one after the files started so far
    /// (`file_started` counts them), each once and in order, whatever the
    /// earlier ones gave; once all were started, or when not processing,
    /// there is none.
    pub fn next_file(&self) -> (r: Option<usize>)
        ensures
            r == if self.state == ProcessingState::Processing && self.current_file < self.files@.len() {
                Some(self.current_file)
            } else {
                None::<usize>
            },
    {
        if self.state == ProcessingState::Processing && self.current_file < self.files.len() {
            Some(self.current_file)
        } else {
            None
        }
    }

    /// Whether processing can start: there are files and none is being
    /// processed.
    pub fn can_process(&self) -> (r: bool)
        ensures
            r == (self.files@.len() > 0 && self.state != ProcessingState::Processing),
    {
        self.files.len() > 0 && self.state != ProcessingState::Processing
    }

    /// Starts processing the list; `false`, with nothing changed, when it is
    /// empty.
    pub fn begin_processing(&mut self) -> (r: bool)
        ensures
            r == (old(self).files@.len() > 0),
            !r ==> *final(self) == *old(self),
            r ==> final(self).state == ProcessingState::Processing,
            r ==> final(self).total_files == old(self).files@.len(),
            r ==> final(self).current_file == 0,
            r ==> final(self).error_message is None,
            final(self).files == old(self).files,
            final(self).keep_original == old(self).keep_original,
            final(self).open_output_dir == old(self).open_output_dir,
    {
        if self.files.len() == 0 {
            return false;
        }
        self.state = ProcessingState::Processing;
        self.total_files = self.files.len();
        self.current_file = 0;
        self.error_message = None;
        true
    }

    /// Marks file `i` (counting from 0) as the one being processed.
    pub fn file_started(&mut self, i: usize)
        requires
            i < old(self).files@.len(),
        ensures
            final(self).current_file == i + 1,
            final(self).files == old(self).files,
            final(self).state == old(self).state,
            final(self).total_files == old(self).total_files,
            final(self).error_message == old(self).error_message,
            final(self).keep_original == old(self).keep_original,
            final(self).open_output_dir == old(self).open_output_dir,
    {
        let n = self.files.len();
        assert(i < n);
        self.current_file = i + 1;
    }

    fn set_status(&mut self, i: usize, status: String)
        requires
            i < old(self).files@.len(),
        ensures
            status_set(old(self).files@, final(self).files@, i as int, status@),
            final(self).state == old(self).state,
            final(self).current_file == old(self).current_file,
            final(self).total_files == old(self).total_files,
            final(self).error_message == old(self).error_message,
            final(self).keep_original == old(self).keep_original,
            final(self).open_output_dir == old(self).open_output_dir,
    {
        let mut slot = PdfInfo {
            path: String::new(),
            name: String::new(),
            pages: 0,
            annotations: 0,
            status: String::new(),
        };
        self.files.set_and_swap(i, &mut slot);
        let PdfInfo { path, name, pages, annotations, status: _ } = slot;
        self.files.set(i, PdfInfo { path, name, pages, annotations, status });
    }

    /// Records how processing file `i` ended: its status becomes ✅ or ❌,
    /// and a failure's message becomes the error shown.
    pub fn file_finished(&mut self, i: usize, result: Result<(), String>)
        requires
            i < old(self).files@.len(),
        ensures
            match result {
                Ok(()) => {
                    &&& status_set(old(self).files@, final(self).files@, i as int, status_done())
                    &&& final(self).error_message == old(self).error_message
                },
                Err(e) => {
                    &&& status_set(old(self).files@, final(self).files@, i as int, status_failed())
                    &&& final(self).error_message matches Some(m)
                    &&& m@ == err_process_file_text(Language::Chinese, old(self).files@[i as int].name@, e@)
                },
            },
            final(self).state == old(self).state,
            final(self).current_file == old(self).current_file,
            final(self).total_files == old(self).total_files,
            final(self).keep_original == old(self).keep_original,
            final(self).open_output_dir == old(self).open_output_dir,
    {
        match result {
            Ok(()) => {
                self.set_status(i, String::from_str("✅"));
            },
            Err(e) => {
                let msg = err_process_file(Language::Chinese, self.files[i].name.as_str(), e.as_str());
                self.set_status(i, String::from_str("❌"));
                self.error_message = Some(msg);
            },
        }
    }

    /// Ends processing.
    pub fn finish_processing(&mut self)
        ensures
            final(self).state == ProcessingState::Done,
            final(self).files == old(self).files,
            final(self).current_file == old(self).current_file,
            final(self).total_files == old(self).total_files,
            final(self).error_message == old(self).error_message,
            final(self).keep_original == old(self).keep_original,
            final(self).open_output_dir == old(self).open_output_dir,
    {
        self.state = ProcessingState::Done;
    }

    /// The directory to open after processing: the parent of the first
    /// file's path, when that option is on.
    pub fn output_directory(&self) -> (r: Option<String>)
        ensures
            !self.open_output_dir || self.files@.len() == 0 ==> r is None,
            self.open_output_dir && self.files@.len() > 0 && plain_path(self.files@[0].path@) ==> (r is Some
                && r->Some_0@ == plain_parent(self.files@[0].path@)),
    {
        if self.open_output_dir && self.files.len() > 0 {
            parent(self.files[0].path.as_str())
        } else {
            None
        }
    }

    /// Empties the list and returns to idle.
    pub fn clear_list(&mut self)
        ensures
            final(self).files@.len() == 0,
            final(self).state == ProcessingState::Idle,
            final(self).error_message is None,
            final(self).keep_original == old(self).keep_original,
            final(self).open_output_dir == old(self).open_output_dir,
            final(self).current_file == old(self).current_file,
            final(self).total_files == old(self).total_files,
    {
        self.files.clear();
        self.state = ProcessingState::Idle;
        self.error_message = None;
    }
}

} // verus!
