//! The report of a run: one entry for each material, in the order of the
//! materials, whatever became of each.

use crate::dimensions::{message_of, DimensionError};
use vstd::prelude::*;

verus! {

/// Why one material gave no file. The other materials are not affected.
#[derive(Clone, Debug, PartialEq, Eq)]
pub enum MaterialFailure {
    /// The loaded maps have no common size.
    Dimensions(DimensionError),
    /// The composite could not be written; `message` says why.
    Write { message: String },
}

/// What became of one material: the path of the file that was written, or none.
#[derive(Clone, Debug, PartialEq, Eq)]
pub struct ResultEntry {
    pub ok: bool,
    pub path: Option<String>,
}

/// The report of a whole run.
#[derive(Clone, Debug, PartialEq, Eq)]
pub enum RunReport {
    /// The asset could not be opened or read, or a setting was refused:
    /// nothing was attempted.
    Failed,
    /// The asset was read: one entry for each of its materials.
    Completed(Vec<ResultEntry>),
}

/// The diagnostic for a failed material.
pub open spec fn failure_text(failure: MaterialFailure) -> Seq<char> {
    match failure {
        MaterialFailure::Dimensions(e) => message_of(e),
        MaterialFailure::Write { message } => message@,
    }
}

/// The entry for the outcome of one material.
pub open spec fn entry_of(outcome: Result<String, MaterialFailure>) -> ResultEntry {
    match outcome {
        Ok(path) => ResultEntry { ok: true, path: Some(path) },
        Err(_) => ResultEntry { ok: false, path: None },
    }
}

/// The paths of the entries, as sequences of characters.
pub open spec fn paths_of(entries: Seq<ResultEntry>) -> Seq<Option<Seq<char>>> {
    Seq::new(
        entries.len(),
        |i: int|
            match entries[i].path {
                Some(p) => Some(p@),
                None => None,
            },
    )
}

/// What a report is written as: nothing for a failed run, the paths of the
/// entries for a completed one.
pub open spec fn report_paths(report: RunReport) -> Option<Seq<Option<Seq<char>>>> {
    match report {
        RunReport::Failed => None,
        RunReport::Completed(entries) => Some(paths_of(entries@)),
    }
}

/// The compact JSON text of a value that is null (`None`) or an array whose
/// items are strings or null.
pub uninterp spec fn json_text(value: Option<Seq<Option<Seq<char>>>>) -> Seq<char>;

/// Builds a `serde_json::Value` with its `From` impls (`None` gives null, a
/// vector an array, a string a string) and writes it with `Value`'s
/// `Display`, which gives the compact JSON text. The text depends on the
/// value alone; that of null is `null`.
#[verifier::external_body]
fn json_to_string(value: &Option<Vec<Option<String>>>) -> (text: String)
    ensures
        text@ == json_text(value.deep_view()),
        *value is None ==> text@ == "null"@,
{
    serde_json::Value::from(value.clone()).to_string()
}

impl MaterialFailure {
    /// The diagnostic for this failure.
    pub fn message(&self) -> (text: String)
        ensures
            text@ == failure_text(*self),
    {
        match self {
            MaterialFailure::Dimensions(e) => e.message(),
            MaterialFailure::Write { message } => message.clone(),
        }
    }
}

/// The entry for the outcome of one material.
pub fn result_entry(outcome: &Result<String, MaterialFailure>) -> (entry: ResultEntry)
    ensures
        entry == entry_of(*outcome),
{
    match outcome {
        Ok(path) => ResultEntry { ok: true, path: Some(path.clone()) },
        Err(_) => ResultEntry { ok: false, path: None },
    }
}

/// The entries for the outcomes of all materials: as many as there are
/// outcomes, each at the position of its material.
pub fn result_entries(outcomes: &Vec<Result<String, MaterialFailure>>) -> (entries: Vec<
    ResultEntry,
>)
    ensures
        entries@.len() == outcomes@.len(),
        forall|i: int| 0 <= i < outcomes@.len() ==> #[trigger] entries@[i] == entry_of(outcomes@[i]),
{
    let mut entries: Vec<ResultEntry> = Vec::new();
    let mut i: usize = 0;
    while i < outcomes.len()
        invariant
            i <= outcomes@.len(),
            entries@.len() == i,
            forall|j: int| 0 <= j < i ==> #[trigger] entries@[j] == entry_of(outcomes@[j]),
        decreases outcomes@.len() - i,
    {
        entries.push(result_entry(&outcomes[i]));
        i = i + 1;
    }
    entries
}

impl RunReport {
    /// The exit status of the run: 0 once the asset was read, whatever
    /// became of its materials, and 1 otherwise.
    pub fn exit_status(&self) -> (code: i32)
        ensures
            code == if *self is Completed {
                0i32
            } else {
                1i32
            },
    {
        match self {
            RunReport::Completed(_) => 0,
            RunReport::Failed => 1,
        }
    }

    /// The report as JSON text: an array with the path of each material's
    /// file, or null in its place; a single null for a failed run.
    pub fn render(&self) -> (text: String)
        ensures
            text@ == json_text(report_paths(*self)),
            *self is Failed ==> text@ == "null"@,
    {
        match self {
            RunReport::Failed => json_to_string(&None),
            RunReport::Completed(entries) => {
                let mut paths: Vec<Option<String>> = Vec::new();
                let mut i: usize = 0;
                while i < entries.len()
                    invariant
                        i <= entries@.len(),
                        paths@.len() == i,
                        forall|j: int|
                            0 <= j < i ==> #[trigger] paths@[j].deep_view() == paths_of(
                                entries@,
                            )[j],
                    decreases entries@.len() - i,
                {
                    let path: Option<String> = match &entries[i].path {
                        Some(p) => Some(p.clone()),
                        None => None,
                    };
                    paths.push(path);
                    i = i + 1;
                }
                let value = Some(paths);
                assert(value.deep_view() == report_paths(*self)) by {
                    assert(paths.deep_view() =~= paths_of(entries@));
                }
                json_to_string(&value)
            },
        }
    }
}

} // verus!
