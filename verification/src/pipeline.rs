//! The steps of a run: what to do with an entry of a folder, how lines are gathered
//! into batches, and how a batch is flattened and dispatched.

use vstd::prelude::*;
use vstd::string::*;

use crate::category_writer::{
    categorized_prefix, dispatched_all, record_views, sinks_wf, CategoryWriter,
};
use crate::data_type::{record_of, Record, RecordView};
use crate::error::{CleanResult, ParseError};
use crate::text::{same_name, texts};
use crate::utils::{flatten_json, flatten_outcome, yields};

verus! {

/// How many lines are flattened and dispatched at a time.
pub const BATCH_LINES: usize = 500;

/// The name of the folder, under each folder of a walk, that takes the output.
pub const OUTPUT_FOLDER: &'static str = "output";

/// The extension of the name of a log file.
pub const LOG_EXTENSION: &'static str = "log";

/// The extension of the name of an archive that holds a log file.
pub const ARCHIVE_EXTENSION: &'static str = "gz";

/// The name of the folder, under each folder of a walk, that takes the output.
pub open spec fn output_folder() -> Seq<char> {
    OUTPUT_FOLDER@
}

/// An entry met on a walk through a folder, as far as a run looks at it.
#[derive(Debug)]
pub enum Entry {
    /// A folder, with its name up to the extension.
    Folder { name: String },
    /// A file with the extension of its name, if the name has one.
    File { extension: Option<String> },
    /// Anything else.
    Other,
}

/// What a run does with an entry.
#[derive(Clone, Copy, Debug, PartialEq, Eq, Structural)]
pub enum EntryAction {
    /// Make the output folder under this folder, and route what follows to it.
    OpenOutput,
    /// Process the file as a log.
    ProcessLog,
    /// Unpack the file, process the log that it holds, and remove that log.
    ProcessArchive,
    /// Pass the entry by.
    Skip,
}

/// What a run does with an entry: a folder other than an output folder opens an output
/// folder of its own, a file is a log or an archive by its extension, and everything
/// else is passed by.
pub open spec fn action_for(entry: Entry) -> EntryAction {
    match entry {
        Entry::Folder { name } => if name@ != output_folder() {
            EntryAction::OpenOutput
        } else {
            EntryAction::Skip
        },
        Entry::File { extension: Some(extension) } => if extension@ == LOG_EXTENSION@ {
            EntryAction::ProcessLog
        } else if extension@ == ARCHIVE_EXTENSION@ {
            EntryAction::ProcessArchive
        } else {
            EntryAction::Skip
        },
        _ => EntryAction::Skip,
    }
}

/// What a run does with an entry.
pub fn entry_action(entry: &Entry) -> (r: EntryAction)
    ensures
        r == action_for(*entry),
{
    match entry {
        Entry::Folder { name } => {
            if same_name(name.as_str(), OUTPUT_FOLDER) {
                EntryAction::Skip
            } else {
                EntryAction::OpenOutput
            }
        },
        Entry::File { extension: Some(extension) } => {
            if same_name(extension.as_str(), LOG_EXTENSION) {
                EntryAction::ProcessLog
            } else if same_name(extension.as_str(), ARCHIVE_EXTENSION) {
                EntryAction::ProcessArchive
            } else {
                EntryAction::Skip
            }
        },
        _ => EntryAction::Skip,
    }
}

/// The lines that wait for their batch to fill: always fewer than `BATCH_LINES`.
pub struct LineBatch {
    lines: Vec<String>,
}

impl View for LineBatch {
    type V = Seq<Seq<char>>;

    closed spec fn view(&self) -> Seq<Seq<char>> {
        texts(self.lines@)
    }
}

impl LineBatch {
    #[verifier::type_invariant]
    spec fn inv(self) -> bool {
        self.lines@.len() < BATCH_LINES
    }

    /// No lines.
    pub fn new() -> (r: LineBatch)
        ensures
            r@.len() == 0,
    {
        LineBatch { lines: Vec::new() }
    }

    /// Takes one line more. Where that fills the batch, the batch is handed out, the
    /// lines in the order in which they came, and none is left waiting.
    pub fn push(&mut self, line: String) -> (r: Option<Vec<String>>)
        ensures
            match r {
                Some(batch) => old(self)@.len() + 1 == BATCH_LINES && texts(batch@) == old(
                    self,
                )@.push(line@) && final(self)@.len() == 0,
                None => old(self)@.len() + 1 < BATCH_LINES && final(self)@ == old(self)@.push(
                    line@,
                ),
            },
    {
        proof {
            use_type_invariant(&*self);
        }
        let ghost before = self@;
        let mut lines: Vec<String> = Vec::new();
        core::mem::swap(&mut self.lines, &mut lines);
        lines.push(line);
        proof {
            assert(texts(lines@) =~= before.push(line@));
        }
        if lines.len() == BATCH_LINES {
            Some(lines)
        } else {
            core::mem::swap(&mut self.lines, &mut lines);
            None
        }
    }

    /// Hands out the lines that wait, if there are any, and leaves none waiting.
    pub fn finish(&mut self) -> (r: Option<Vec<String>>)
        ensures
            final(self)@.len() == 0,
            match r {
                Some(rest) => old(self)@.len() > 0 && texts(rest@) == old(self)@,
                None => old(self)@.len() == 0,
            },
    {
        proof {
            use_type_invariant(&*self);
        }
        let mut lines: Vec<String> = Vec::new();
        core::mem::swap(&mut self.lines, &mut lines);
        if lines.len() == 0 {
            None
        } else {
            Some(lines)
        }
    }
}

/// The first failure among the results that ends a run, if there is one.
pub open spec fn first_fatal(results: Seq<CleanResult<Record>>) -> Option<ParseError>
    decreases results.len(),
{
    if results.len() == 0 {
        None
    } else {
        match first_fatal(results.drop_last()) {
            Some(e) => Some(e),
            None => match results.last() {
                Err(e) => if e.fatal() {
                    Some(e)
                } else {
                    None
                },
                Ok(_) => None,
            },
        }
    }
}

/// The records among the results, in the order of the results.
pub open spec fn kept_records(results: Seq<CleanResult<Record>>) -> Seq<RecordView>
    decreases results.len(),
{
    if results.len() == 0 {
        Seq::empty()
    } else {
        match results.last() {
            Ok(record) => kept_records(results.drop_last()).push(record@),
            Err(_) => kept_records(results.drop_last()),
        }
    }
}

/// A failure that ends a run stays the first one, whatever results follow.
pub proof fn lemma_first_fatal_stays(results: Seq<CleanResult<Record>>, until: int)
    requires
        0 <= until <= results.len(),
        first_fatal(results.take(until)).is_some(),
    ensures
        first_fatal(results) == first_fatal(results.take(until)),
    decreases results.len(),
{
    if until == results.len() {
        assert(results.take(until) =~= results);
    } else {
        assert(results.drop_last().take(until) =~= results.take(until));
        lemma_first_fatal_stays(results.drop_last(), until);
    }
}

/// Sorts out the results of flattening: the records are kept, in order, and the
/// failures that concern one line only are dropped. A failure that ends the run is
/// handed on, the first one where there are several.
pub fn keep_records(results: Vec<CleanResult<Record>>) -> (r: CleanResult<Vec<Record>>)
    ensures
        match r {
            Ok(records) => first_fatal(results@).is_none() && record_views(records@)
                == kept_records(results@),
            Err(e) => first_fatal(results@) == Some(e),
        },
{
    let ghost all = results@;
    let mut records: Vec<Record> = Vec::new();
    proof {
        assert(record_views(records@) =~= kept_records(all.take(0)));
    }
    for result in it: results
        invariant
            it.seq() == all,
            first_fatal(all.take(it.index())).is_none(),
            record_views(records@) == kept_records(all.take(it.index())),
    {
        proof {
            assert(all.take(it.index() + 1).drop_last() =~= all.take(it.index()));
        }
        match result {
            Ok(record) => {
                proof {
                    assert(record_views(records@.push(record)) =~= record_views(records@).push(
                        record@,
                    ));
                }
                records.push(record);
            },
            Err(e) => {
                if e.is_fatal() {
                    proof {
                        lemma_first_fatal_stays(all, it.index() + 1);
                    }
                    return Err(e);
                }
            },
        }
    }
    proof {
        assert(all.take(all.len() as int) =~= all);
    }
    Ok(records)
}

/// The records of the lines that flattening does not drop, in the order of the lines.
pub open spec fn survivors(lines: Seq<Seq<char>>, allowed: Seq<Seq<char>>) -> Seq<RecordView>
    decreases lines.len(),
{
    if lines.len() == 0 {
        Seq::empty()
    } else {
        match flatten_outcome(lines.last(), allowed) {
            Ok(fields) => survivors(lines.drop_last(), allowed).push(record_of(fields)),
            Err(_) => survivors(lines.drop_last(), allowed),
        }
    }
}

/// The records of two batches of lines are those of the first batch, then those of the
/// second: where a run cuts its lines into batches does not change what is dispatched.
pub proof fn lemma_survivors_of_batches(
    first: Seq<Seq<char>>,
    second: Seq<Seq<char>>,
    allowed: Seq<Seq<char>>,
)
    ensures
        survivors(first + second, allowed) == survivors(first, allowed) + survivors(
            second,
            allowed,
        ),
    decreases second.len(),
{
    if second.len() == 0 {
        assert(first + second =~= first);
        assert(survivors(first, allowed) + survivors(second, allowed) =~= survivors(
            first,
            allowed,
        ));
    } else {
        lemma_survivors_of_batches(first, second.drop_last(), allowed);
        assert((first + second).drop_last() =~= first + second.drop_last());
        assert((first + second).last() == second.last());
        match flatten_outcome(second.last(), allowed) {
            Ok(fields) => {
                assert(survivors(first, allowed) + survivors(second, allowed) =~= (survivors(
                    first,
                    allowed,
                ) + survivors(second.drop_last(), allowed)).push(record_of(fields)));
            },
            Err(_) => {},
        }
    }
}

/// However the lines of a batch are flattened, one after the other or side by side, the
/// results sort out to the same: no failure ends the run, the records kept are those of
/// the lines that are not dropped, in the order of the lines, and each has a category,
/// so that dispatching them cannot fail.
pub proof fn lemma_flattened_results(
    lines: Seq<Seq<char>>,
    allowed: Seq<Seq<char>>,
    results: Seq<CleanResult<Record>>,
)
    requires
        results.len() == lines.len(),
        forall|i: int|
            0 <= i < lines.len() ==> yields(#[trigger] results[i], flatten_outcome(lines[i], allowed)),
    ensures
        first_fatal(results).is_none(),
        kept_records(results) == survivors(lines, allowed),
        categorized_prefix(kept_records(results)) == kept_records(results).len(),
    decreases lines.len(),
{
    if lines.len() > 0 {
        assert(yields(results[lines.len() - 1], flatten_outcome(lines.last(), allowed)));
        assert forall|i: int| 0 <= i < lines.drop_last().len() implies yields(
            #[trigger] results.drop_last()[i],
            flatten_outcome(lines.drop_last()[i], allowed),
        ) by {
            assert(results.drop_last()[i] == results[i]);
        }
        lemma_flattened_results(lines.drop_last(), allowed, results.drop_last());
        if results.last() is Ok {
            assert(kept_records(results).drop_last() =~= kept_records(results.drop_last()));
        }
    }
}

/// Flattens each line of a batch, sorts out the results, and dispatches the records in
/// the order of the lines. A dropped line changes nothing, and the call never fails.
pub fn write_out_buffered_lines(
    buffered_lines: &Vec<String>,
    category_writer: &mut CategoryWriter,
    filter_query: &Vec<String>,
) -> (r: CleanResult<()>)
    ensures
        r is Ok,
        final(category_writer).target_view() == old(category_writer).target_view(),
        final(category_writer)@ == dispatched_all(
            old(category_writer).target_view(),
            old(category_writer)@,
            survivors(texts(buffered_lines@), texts(filter_query@)),
        ),
        sinks_wf(final(category_writer).target_view(), final(category_writer)@),
{
    let ghost lines = texts(buffered_lines@);
    let ghost allowed = texts(filter_query@);
    let mut results: Vec<CleanResult<Record>> = Vec::new();
    let mut i: usize = 0;
    while i < buffered_lines.len()
        invariant
            i <= buffered_lines@.len(),
            lines == texts(buffered_lines@),
            allowed == texts(filter_query@),
            results@.len() == i,
            forall|j: int|
                0 <= j < i ==> yields(#[trigger] results@[j], flatten_outcome(lines[j], allowed)),
        decreases buffered_lines@.len() - i,
    {
        results.push(flatten_json(buffered_lines[i].as_str(), filter_query));
        i += 1;
    }
    proof {
        lemma_flattened_results(lines, allowed, results@);
    }
    match keep_records(results) {
        Ok(records) => {
            proof {
                let views = record_views(records@);
                assert(views.take(views.len() as int) =~= views);
            }
            category_writer.process_records(&records)
        },
        Err(e) => Err(e),
    }
}

} // verus!
