//! The decisions of the migration of a directory of price files: what a
//! file is by its name, where its document goes, and in which order the
//! steps of a conversion are taken. Reading and writing files is left to
//! the caller.

use crate::text::{chars_of, string_of};
use vstd::prelude::*;

verus! {

/// What a file of the data directory is, by its name.
#[derive(Clone, Copy, Debug, PartialEq, Eq, Structural)]
pub enum FileKind {
    /// A price file in the text format, to be converted.
    Text,
    /// A document, to be loaded.
    Document,
    /// Anything else, to be left alone.
    Other,
}

/// The end of the name of a price file in the text format.
pub open spec fn text_ending() -> Seq<char> {
    seq!['.', 't', 'x', 't']
}

/// The end of the name of a document.
pub open spec fn document_ending() -> Seq<char> {
    seq!['.', 'j', 's', 'o', 'n']
}

/// The end of the name under which a document is written before it is published.
pub open spec fn temporary_ending() -> Seq<char> {
    seq!['.', 't', 'm', 'p']
}

/// Whether `name` ends with `ending`.
pub open spec fn ends_with(name: Seq<char>, ending: Seq<char>) -> bool {
    name.len() >= ending.len() && name.skip(name.len() - ending.len()) == ending
}

/// What a file is, by its name.
pub open spec fn kind_of(name: Seq<char>) -> FileKind {
    if ends_with(name, text_ending()) {
        FileKind::Text
    } else if ends_with(name, document_ending()) {
        FileKind::Document
    } else {
        FileKind::Other
    }
}

/// The name of the document of the price file `name`: `json` in place of `txt`.
pub open spec fn document_name_of(name: Seq<char>) -> Seq<char> {
    name.take(name.len() - 4) + document_ending()
}

fn has_ending(chars: &Vec<char>, ending: &Vec<char>) -> (found: bool)
    ensures
        found == ends_with(chars@, ending@),
{
    let n = chars.len();
    let m = ending.len();
    if n < m {
        return false;
    }
    let ghost tail = chars@.skip(n - m);
    let mut i: usize = 0;
    while i < m
        invariant
            i <= m == ending.len(),
            m <= n == chars.len(),
            tail == chars@.skip(n - m),
            forall|j: int| 0 <= j < i ==> tail[j] == ending@[j],
        decreases m - i,
    {
        if chars[n - m + i] != ending[i] {
            proof {
                assert(tail[i as int] != ending@[i as int]);
            }
            return false;
        }
        i += 1;
    }
    proof {
        assert(tail =~= ending@);
    }
    true
}

/// Decides what a file is, by its name.
pub fn classify(name: &str) -> (kind: FileKind)
    ensures
        kind == kind_of(name@),
{
    let chars = chars_of(name);
    let text = vec!['.', 't', 'x', 't'];
    let document = vec!['.', 'j', 's', 'o', 'n'];
    proof {
        assert(text@ =~= text_ending());
        assert(document@ =~= document_ending());
    }
    if has_ending(&chars, &text) {
        FileKind::Text
    } else if has_ending(&chars, &document) {
        FileKind::Document
    } else {
        FileKind::Other
    }
}

/// The name of the document that the price file `name` is converted to;
/// none where `name` is not that of a price file.
pub fn document_name(name: &str) -> (target: Option<String>)
    ensures
        match target {
            Some(t) => kind_of(name@) == FileKind::Text && t@ == document_name_of(name@),
            None => kind_of(name@) != FileKind::Text,
        },
{
    let chars = chars_of(name);
    let text = vec!['.', 't', 'x', 't'];
    proof {
        assert(text@ =~= text_ending());
    }
    if !has_ending(&chars, &text) {
        return None;
    }
    let mut target = string_of(&chars, 0, chars.len() - 4);
    target.push('.');
    target.push('j');
    target.push('s');
    target.push('o');
    target.push('n');
    proof {
        assert(target@ =~= document_name_of(name@));
    }
    Some(target)
}

/// The name under which the document of the price file `name` is written
/// before it is published; none where `name` is not that of a price file.
pub fn temporary_name(name: &str) -> (target: Option<String>)
    ensures
        match target {
            Some(t) => kind_of(name@) == FileKind::Text && t@ == document_name_of(name@)
                + temporary_ending(),
            None => kind_of(name@) != FileKind::Text,
        },
{
    match document_name(name) {
        Some(mut target) => {
            target.push('.');
            target.push('t');
            target.push('m');
            target.push('p');
            proof {
                assert(target@ =~= document_name_of(name@) + temporary_ending());
            }
            Some(target)
        },
        None => None,
    }
}

/// A step of the conversion of one price file.
#[derive(Clone, Copy, Debug, PartialEq, Eq, Structural)]
pub enum Step {
    /// Read the price file.
    ReadSource,
    /// Read every line of it into a series.
    Parse,
    /// Write the document under its temporary name.
    WriteTemporary,
    /// Read the temporary document back and hold it against the series.
    VerifyTemporary,
    /// Give the temporary document its name.
    Publish,
    /// Remove the price file.
    RemoveSource,
    /// Remove the temporary document.
    DiscardTemporary,
}

/// How the conversion of one price file ended.
#[derive(Clone, Copy, Debug, PartialEq, Eq, Structural)]
pub enum Conversion {
    /// The document stands and the price file is gone.
    Complete,
    /// The document stands, but the price file could not be removed.
    SourceKept,
    /// There is no document, and the price file is as it was.
    Failed,
}

/// Where the conversion of one price file stands.
#[derive(Clone, Copy, Debug, PartialEq, Eq, Structural)]
pub enum Progress {
    /// The step to take next.
    Continue(Step),
    /// No step is left.
    Done(Conversion),
}

/// Where a conversion stands after `step` succeeded or failed.
pub open spec fn after(step: Step, succeeded: bool) -> Progress {
    match step {
        Step::ReadSource => if succeeded {
            Progress::Continue(Step::Parse)
        } else {
            Progress::Done(Conversion::Failed)
        },
        Step::Parse => if succeeded {
            Progress::Continue(Step::WriteTemporary)
        } else {
            Progress::Done(Conversion::Failed)
        },
        Step::WriteTemporary => if succeeded {
            Progress::Continue(Step::VerifyTemporary)
        } else {
            Progress::Continue(Step::DiscardTemporary)
        },
        Step::VerifyTemporary => if succeeded {
            Progress::Continue(Step::Publish)
        } else {
            Progress::Continue(Step::DiscardTemporary)
        },
        Step::Publish => if succeeded {
            Progress::Continue(Step::RemoveSource)
        } else {
            Progress::Continue(Step::DiscardTemporary)
        },
        Step::RemoveSource => if succeeded {
            Progress::Done(Conversion::Complete)
        } else {
            Progress::Done(Conversion::SourceKept)
        },
        Step::DiscardTemporary => Progress::Done(Conversion::Failed),
    }
}

/// Where a conversion stands when its steps so far ended as `outcomes` say,
/// in order.
pub open spec fn progress(outcomes: Seq<bool>) -> Progress
    decreases outcomes.len(),
{
    if outcomes.len() == 0 {
        Progress::Continue(Step::ReadSource)
    } else {
        match progress(outcomes.drop_last()) {
            Progress::Continue(step) => after(step, outcomes.last()),
            Progress::Done(end) => Progress::Done(end),
        }
    }
}

/// The step that a conversion starts with.
pub fn first_step() -> (step: Step)
    ensures
        Progress::Continue(step) == progress(Seq::<bool>::empty()),
{
    Step::ReadSource
}

/// The step to take after `step` succeeded or failed, or how the conversion ended.
pub fn next_step(step: Step, succeeded: bool) -> (next: Progress)
    ensures
        next == after(step, succeeded),
{
    match step {
        Step::ReadSource | Step::Parse => if succeeded {
            match step {
                Step::ReadSource => Progress::Continue(Step::Parse),
                _ => Progress::Continue(Step::WriteTemporary),
            }
        } else {
            Progress::Done(Conversion::Failed)
        },
        Step::WriteTemporary | Step::VerifyTemporary | Step::Publish => if succeeded {
            match step {
                Step::WriteTemporary => Progress::Continue(Step::VerifyTemporary),
                Step::VerifyTemporary => Progress::Continue(Step::Publish),
                _ => Progress::Continue(Step::RemoveSource),
            }
        } else {
            Progress::Continue(Step::DiscardTemporary)
        },
        Step::RemoveSource => if succeeded {
            Progress::Done(Conversion::Complete)
        } else {
            Progress::Done(Conversion::SourceKept)
        },
        Step::DiscardTemporary => Progress::Done(Conversion::Failed),
    }
}

/// The place of a step in a conversion in which nothing fails.
pub open spec fn rank(step: Step) -> int {
    match step {
        Step::ReadSource => 0,
        Step::Parse => 1,
        Step::WriteTemporary => 2,
        Step::VerifyTemporary => 3,
        Step::Publish => 4,
        Step::RemoveSource => 5,
        Step::DiscardTemporary => 6,
    }
}

/// A step other than the discarding of the temporary document is taken only
/// when every step before it has been taken and has succeeded. So the price
/// file is removed only once it was read and parsed in full, and the document
/// written, verified and published. The temporary document is discarded only
/// after it was written, and the conversion is complete only when all six
/// steps succeeded.
pub proof fn lemma_steps_in_order(outcomes: Seq<bool>)
    ensures
        match progress(outcomes) {
            Progress::Continue(Step::DiscardTemporary) => {
                &&& 3 <= outcomes.len() <= 5
                &&& forall|i: int| 0 <= i < outcomes.len() - 1 ==> outcomes[i]
                &&& !outcomes.last()
            },
            Progress::Continue(step) => {
                &&& outcomes.len() == rank(step)
                &&& forall|i: int| 0 <= i < outcomes.len() ==> outcomes[i]
            },
            Progress::Done(Conversion::Complete) => {
                &&& outcomes.len() >= 6
                &&& forall|i: int| 0 <= i < 6 ==> outcomes[i]
            },
            Progress::Done(Conversion::SourceKept) => {
                &&& outcomes.len() >= 6
                &&& forall|i: int| 0 <= i < 5 ==> outcomes[i]
                &&& !outcomes[5]
            },
            Progress::Done(Conversion::Failed) => exists|i: int|
                0 <= i < outcomes.len() && i < 5 && !outcomes[i],
        },
    decreases outcomes.len(),
{
    if outcomes.len() > 0 {
        let before = outcomes.drop_last();
        lemma_steps_in_order(before);
        assert forall|i: int| 0 <= i < before.len() implies before[i] == outcomes[i] by {}
        match progress(before) {
            Progress::Continue(Step::DiscardTemporary) => {
                assert(!outcomes[before.len() - 1]);
            },
            Progress::Continue(step) => {
                if !outcomes.last() {
                    assert(!outcomes[outcomes.len() - 1]);
                }
            },
            Progress::Done(Conversion::Failed) => {
                let i = choose|i: int| 0 <= i < before.len() && i < 5 && !before[i];
                assert(!outcomes[i]);
            },
            Progress::Done(_) => {},
        }
    }
}

/// A price file that cannot be read, or of which a line is rejected, is left
/// as it was: the conversion has failed, and at no time was a document to be
/// written or published, or the price file to be removed.
pub proof fn lemma_rejected_file_untouched(outcomes: Seq<bool>, n: int)
    requires
        outcomes.len() >= 2,
        !outcomes[0] || !outcomes[1],
        0 <= n <= outcomes.len(),
    ensures
        progress(outcomes) == Progress::Done(Conversion::Failed),
        progress(outcomes.take(n)) == Progress::Continue(Step::ReadSource) || progress(
            outcomes.take(n),
        ) == Progress::Continue(Step::Parse) || progress(outcomes.take(n)) == Progress::Done(
            Conversion::Failed,
        ),
{
    lemma_steps_in_order(outcomes);
    lemma_steps_in_order(outcomes.take(n));
    let early = outcomes.take(n);
    match progress(early) {
        Progress::Continue(step) => {
            if n >= 2 {
                assert(early[0] == outcomes[0] && early[1] == outcomes[1]);
            }
        },
        Progress::Done(_) => {
            assert(early[0] == outcomes[0]);
            if n >= 2 {
                assert(early[1] == outcomes[1]);
            }
        },
    }
}

/// Every conversion has ended after seven steps.
pub proof fn lemma_conversion_ends(outcomes: Seq<bool>)
    requires
        outcomes.len() >= 7,
    ensures
        progress(outcomes) is Done,
{
    lemma_steps_in_order(outcomes);
}

} // verus!
