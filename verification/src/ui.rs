//! The decisions behind the file list and the progress display.
use vstd::prelude::*;
use crate::app::{paths_distinct, ProcessingState};
use crate::i18n::{processing, processing_done, processing_text, choose_text, Language};
use crate::pdf::types::PdfInfo;

verus! {

/// The list of files in the window.
pub struct FileList;

impl FileList {
    /// Removes the file in row `idx` (counting from 0), as its remove
    /// button does.
    pub fn remove(files: &mut Vec<PdfInfo>, idx: usize)
        requires
            idx < old(files)@.len(),
        ensures
            final(files)@ == old(files)@.remove(idx as int),
            paths_distinct(old(files)@) ==> paths_distinct(final(files)@),
    {
        let _removed = files.remove(idx);
        proof {
            let o = old(files)@;
            let n = files@;
            if paths_distinct(o) {
                assert forall|i: int, j: int| 0 <= i < n.len() && 0 <= j < n.len() && i != j implies n[i].path@
                    != n[j].path@ by {
                    let oi = if i < idx { i } else { i + 1 };
                    let oj = if j < idx { j } else { j + 1 };
                    assert(n[i] == o[oi]);
                    assert(n[j] == o[oj]);
                }
            }
        }
    }
}

/// The progress display.
pub struct ProgressView;

impl ProgressView {
    /// The text over the progress bar: nothing while idle, the completion
    /// text once done, otherwise which file of how many is being processed.
    pub fn label(lang: Language, state: ProcessingState, current: usize, total: usize) -> (r: Option<String>)
        ensures
            match state {
                ProcessingState::Idle => r is None,
                ProcessingState::Done => r matches Some(t) && t@ == choose_text(lang, "处理完成"@, "Processing complete"@),
                ProcessingState::Processing => r matches Some(t) && t@ == processing_text(lang, current as nat, total as nat),
            },
    {
        match state {
            ProcessingState::Idle => None,
            ProcessingState::Done => Some(String::from_str(processing_done(lang))),
            ProcessingState::Processing => Some(processing(lang, current, total)),
        }
    }
}

} // verus!
