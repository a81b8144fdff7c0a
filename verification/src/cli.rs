//! What a command line asks for, as plain values.

use vstd::prelude::*;
use vstd::string::*;

use crate::text::{same_name, texts};

verus! {

/// The category that is processed whatever the filter on the command line names.
pub const ALWAYS_ALLOWED: &'static str = "occupancy";

/// The suffix of the output folder where the command line gives none.
pub const DEFAULT_SUFFIX: &'static str = "generated_csvs";

/// The category that is processed whatever the filter on the command line names.
pub open spec fn always_allowed() -> Seq<char> {
    ALWAYS_ALLOWED@
}

/// The suffix of the output folder where the command line gives none.
pub open spec fn default_suffix() -> Seq<char> {
    DEFAULT_SUFFIX@
}

/// What the command line asks to process.
#[derive(Debug)]
pub enum Source {
    /// One log file.
    File(String),
    /// Every log file under a folder.
    Folder(String),
    /// The standard input.
    Stdin,
}

/// The arguments of a run.
#[derive(Debug, Clone)]
pub struct ParsedArguments {
    pub file: Option<String>,
    pub folder: Option<String>,
    pub is_stdin: bool,
    pub is_debug: bool,
    pub filter_query: Vec<String>,
    pub output_folder_suffix: String,
}

impl Default for ParsedArguments {
    /// No source, no debugging, and a filter that lets the category `occupancy` pass.
    fn default() -> (r: ParsedArguments)
        ensures
            r.file.is_none(),
            r.folder.is_none(),
            !r.is_stdin,
            !r.is_debug,
            texts(r.filter_query@) == seq![always_allowed()],
            r.output_folder_suffix@ == default_suffix(),
    {
        let mut filter_query: Vec<String> = Vec::new();
        filter_query.push(String::from_str(ALWAYS_ALLOWED));
        proof {
            assert(texts(filter_query@) =~= seq![always_allowed()]);
        }
        ParsedArguments {
            file: None,
            folder: None,
            is_stdin: false,
            is_debug: false,
            filter_query,
            output_folder_suffix: String::from_str(DEFAULT_SUFFIX),
        }
    }
}

/// Adds a name to a list of names, unless the list holds it.
fn add_name(names: &mut Vec<String>, name: String)
    requires
        texts(old(names)@).no_duplicates(),
    ensures
        texts(final(names)@).no_duplicates(),
        texts(final(names)@).to_set() == texts(old(names)@).to_set().insert(name@),
        texts(old(names)@).contains(name@) ==> final(names)@ == old(names)@,
        !texts(old(names)@).contains(name@) ==> texts(final(names)@) == texts(old(names)@).push(
            name@,
        ),
{
    let ghost before = texts(names@);
    let mut i: usize = 0;
    while i < names.len()
        invariant
            i <= names@.len(),
            *names == *old(names),
            before == texts(names@),
            before.no_duplicates(),
            forall|j: int| 0 <= j < i ==> #[trigger] texts(names@)[j] != name@,
        decreases names@.len() - i,
    {
        if same_name(names[i].as_str(), name.as_str()) {
            proof {
                assert(before[i as int] == name@);
                assert(before.to_set() =~= before.to_set().insert(name@));
            }
            return ;
        }
        i += 1;
    }
    names.push(name);
    proof {
        assert(texts(names@) =~= before.push(name@));
        assert(!before.contains(name@));
        before.lemma_push_to_set_commute(name@);
    }
}

impl ParsedArguments {
    /// The arguments of a run, from what the command line gave: the source, how often
    /// the debug flag was given, and the categories to let pass. Debugging is on where
    /// the flag was given at all. The filter holds each category given, once, and the
    /// category `occupancy`.
    pub fn from_command(source: Source, debug_level: u8, filters: &Vec<String>) -> (r:
        ParsedArguments)
        ensures
            r.is_debug == (debug_level > 0),
            texts(r.filter_query@).no_duplicates(),
            texts(r.filter_query@).to_set() == texts(filters@).to_set().insert(always_allowed()),
            r.output_folder_suffix@ == default_suffix(),
            match source {
                Source::File(path) => r.file.is_some() && r.file.unwrap()@ == path@
                    && r.folder.is_none() && !r.is_stdin,
                Source::Folder(path) => r.folder.is_some() && r.folder.unwrap()@ == path@
                    && r.file.is_none() && !r.is_stdin,
                Source::Stdin => r.file.is_none() && r.folder.is_none() && r.is_stdin,
            },
    {
        let mut filter_query: Vec<String> = Vec::new();
        let mut i: usize = 0;
        proof {
            assert(texts(filter_query@).to_set() =~= texts(filters@).take(0).to_set());
        }
        while i < filters.len()
            invariant
                i <= filters@.len(),
                texts(filter_query@).no_duplicates(),
                texts(filter_query@).to_set() == texts(filters@).take(i as int).to_set(),
            decreases filters@.len() - i,
        {
            proof {
                let seen = texts(filters@).take(i as int);
                let next = texts(filters@).take(i + 1);
                assert(next =~= seen.push(filters@[i as int]@));
                seen.lemma_push_to_set_commute(filters@[i as int]@);
            }
            add_name(&mut filter_query, filters[i].clone());
            i += 1;
        }
        proof {
            assert(texts(filters@).take(filters@.len() as int) =~= texts(filters@));
        }
        add_name(&mut filter_query, String::from_str(ALWAYS_ALLOWED));
        let mut arguments = ParsedArguments {
            file: None,
            folder: None,
            is_stdin: false,
            is_debug: debug_level > 0,
            filter_query,
            output_folder_suffix: String::from_str(DEFAULT_SUFFIX),
        };
        match source {
            Source::File(path) => {
                arguments.file = Some(path);
            },
            Source::Folder(path) => {
                arguments.folder = Some(path);
            },
            Source::Stdin => {
                arguments.is_stdin = true;
            },
        }
        arguments
    }
}

} // verus!
