//! The router: one sink of text for each category, made when the category is first seen.

use vstd::prelude::*;
use vstd::string::*;

use crate::data_type::{Record, RecordView};
use crate::error::{CleanResult, ParseError};
use crate::text::same_name;

verus! {

/// How the sinks of a router are addressed.
#[derive(Debug)]
pub enum OutputTarget {
    /// Each sink is the file `<category>.csv` under this directory.
    Directory(String),
    /// Each sink is the file `<prefix>_<category>.csv`.
    FilePrefix(String),
}

/// What an output target is: the way of addressing, and the text given with it.
pub enum TargetView {
    Directory(Seq<char>),
    FilePrefix(Seq<char>),
}

impl View for OutputTarget {
    type V = TargetView;

    open spec fn view(&self) -> TargetView {
        match self {
            OutputTarget::Directory(dir) => TargetView::Directory(dir@),
            OutputTarget::FilePrefix(prefix) => TargetView::FilePrefix(prefix@),
        }
    }
}

/// The parts in order, one after the other.
pub open spec fn concat(parts: Seq<Seq<char>>) -> Seq<char>
    decreases parts.len(),
{
    if parts.len() == 0 {
        Seq::empty()
    } else {
        concat(parts.drop_last()) + parts.last()
    }
}

/// The end of the name of every sink's file.
pub const FILE_EXTENSION: &'static str = ".csv";

/// What stands between a prefix and the category in the name of a sink's file.
pub const PREFIX_SEPARATOR: &'static str = "_";

/// The file name of the sink of a category.
pub open spec fn sink_file_name(target: TargetView, category: Seq<char>) -> Seq<char> {
    match target {
        TargetView::Directory(_) => category + FILE_EXTENSION@,
        TargetView::FilePrefix(prefix) => prefix + PREFIX_SEPARATOR@ + category + FILE_EXTENSION@,
    }
}

/// What a sink is: the category it is bound to, the name of its file, and all the text
/// that was ever appended to it, as a header and the data lines after it.
pub struct SinkView {
    pub category: Seq<char>,
    pub file_name: Seq<char>,
    /// Whether the header was emitted.
    pub header_written: bool,
    pub header: Seq<char>,
    pub lines: Seq<Seq<char>>,
    /// How much of the text was handed out for writing.
    pub flushed: nat,
    /// Whether the sink was handed out before, so that its file exists.
    pub opened: bool,
}

impl SinkView {
    /// All the text of the sink: the header, then the data lines.
    pub open spec fn text(self) -> Seq<char> {
        self.header + concat(self.lines)
    }

    /// The text that was appended since the sink was last handed out.
    pub open spec fn pending(self) -> Seq<char> {
        self.text().skip(self.flushed as int)
    }

    /// A sink has a header if and only if it holds data lines, so one without a header
    /// holds no text. No more was handed out than there is.
    pub open spec fn wf(self) -> bool {
        &&& self.header_written == (self.lines.len() > 0)
        &&& !self.header_written ==> self.header.len() == 0
        &&& self.flushed <= self.text().len()
        &&& !self.opened ==> self.flushed == 0
    }

    /// The sink of a category to which nothing was appended yet.
    pub open spec fn fresh(target: TargetView, category: Seq<char>) -> SinkView {
        SinkView {
            category,
            file_name: sink_file_name(target, category),
            header_written: false,
            header: Seq::empty(),
            lines: Seq::empty(),
            flushed: 0,
            opened: false,
        }
    }

    /// The text that writing a record appends: its data line, after its header line
    /// where the sink has no header yet.
    pub open spec fn appended(self, record: RecordView) -> Seq<char> {
        if self.header_written {
            record.data_text()
        } else {
            record.full_text()
        }
    }

    /// The sink after a record was written to it.
    pub open spec fn written(self, record: RecordView) -> SinkView {
        SinkView {
            header_written: true,
            header: if self.header_written {
                self.header
            } else {
                record.header_text()
            },
            lines: self.lines.push(record.data_text()),
            ..self
        }
    }
}

/// The categories of the sinks, in the order of the sinks.
pub open spec fn categories(sinks: Seq<SinkView>) -> Seq<Seq<char>> {
    sinks.map_values(|sink: SinkView| sink.category)
}

/// Every sink is well formed and named after its category, and no two sinks have one
/// category.
pub open spec fn sinks_wf(target: TargetView, sinks: Seq<SinkView>) -> bool {
    &&& forall|i: int|
        0 <= i < sinks.len() ==> (#[trigger] sinks[i]).wf() && sinks[i].file_name
            == sink_file_name(target, sinks[i].category)
    &&& categories(sinks).no_duplicates()
}

/// The sinks after the sink of a category was asked for: as before where the category
/// has a sink, with a fresh sink at the end where it has none.
pub open spec fn fetched(
    target: TargetView,
    sinks: Seq<SinkView>,
    category: Seq<char>,
) -> Seq<SinkView> {
    if categories(sinks).contains(category) {
        sinks
    } else {
        sinks.push(SinkView::fresh(target, category))
    }
}

/// The sinks after a record was dispatched: the sink of the record's category, made if
/// need be, has the record written to it, and the other sinks are as before. A record
/// without a category changes nothing.
pub open spec fn dispatched(
    target: TargetView,
    sinks: Seq<SinkView>,
    record: RecordView,
) -> Seq<SinkView> {
    match record.category() {
        None => sinks,
        Some(category) => {
            let with_sink = fetched(target, sinks, category);
            let at = categories(with_sink).index_of(category);
            with_sink.update(at, with_sink[at].written(record))
        },
    }
}

/// Among sinks of distinct categories the category of a sink is found at its position.
pub proof fn lemma_category_at(sinks: Seq<SinkView>, i: int)
    requires
        categories(sinks).no_duplicates(),
        0 <= i < sinks.len(),
    ensures
        categories(sinks).contains(sinks[i].category),
        categories(sinks).index_of(sinks[i].category) == i,
{
    assert(categories(sinks)[i] == sinks[i].category);
}

/// The text that dispatching a record appends to the sink of its category.
pub open spec fn dispatch_text(
    target: TargetView,
    sinks: Seq<SinkView>,
    record: RecordView,
) -> Seq<char>
    recommends
        record.category().is_some(),
{
    let with_sink = fetched(target, sinks, record.category().unwrap());
    with_sink[categories(with_sink).index_of(record.category().unwrap())].appended(record)
}

/// The sinks after the records were dispatched one after the other.
pub open spec fn dispatched_all(
    target: TargetView,
    sinks: Seq<SinkView>,
    records: Seq<RecordView>,
) -> Seq<SinkView>
    decreases records.len(),
{
    if records.len() == 0 {
        sinks
    } else {
        dispatched(target, dispatched_all(target, sinks, records.drop_last()), records.last())
    }
}

/// How many records stand before the first one without a category: all of them where
/// every record has one.
pub open spec fn categorized_prefix(records: Seq<RecordView>) -> nat
    decreases records.len(),
{
    if records.len() == 0 {
        0
    } else {
        let before = categorized_prefix(records.drop_last());
        if before == records.len() - 1 && records.last().category().is_some() {
            records.len()
        } else {
            before
        }
    }
}

/// The prefix of categorized records is no longer than the records.
pub proof fn lemma_categorized_prefix_bounded(records: Seq<RecordView>)
    ensures
        categorized_prefix(records) <= records.len(),
    decreases records.len(),
{
    if records.len() > 0 {
        lemma_categorized_prefix_bounded(records.drop_last());
    }
}

/// Records after one without a category do not lengthen the prefix of categorized
/// records.
pub proof fn lemma_categorized_prefix_stops(records: Seq<RecordView>, at: int)
    requires
        0 <= at < records.len(),
        categorized_prefix(records.take(at)) == at,
        records[at].category().is_none(),
    ensures
        categorized_prefix(records) == at,
    decreases records.len(),
{
    if records.len() == at + 1 {
        assert(records.drop_last() =~= records.take(at));
    } else {
        assert(records.drop_last().take(at) =~= records.take(at));
        lemma_categorized_prefix_stops(records.drop_last(), at);
    }
}

/// The views of the records.
pub open spec fn record_views(records: Seq<Record>) -> Seq<RecordView> {
    records.map_values(|record: Record| record@)
}

/// What is handed out for one sink: the name of its file, the text to append to the
/// file, and whether the file is to be made anew first.
pub struct ChunkView {
    pub file_name: Seq<char>,
    pub text: Seq<char>,
    pub create: bool,
}

/// Whether a flush hands out something for a sink: its file is still to be made, or
/// text is pending.
pub open spec fn due(sink: SinkView) -> bool {
    !sink.opened || sink.pending().len() > 0
}

/// What a flush hands out for a sink.
pub open spec fn chunk_of(sink: SinkView) -> ChunkView {
    ChunkView { file_name: sink.file_name, text: sink.pending(), create: !sink.opened }
}

/// What a flush hands out for the sinks: one chunk for each sink that is due, in the
/// order of the sinks.
pub open spec fn chunks_of(sinks: Seq<SinkView>) -> Seq<ChunkView>
    decreases sinks.len(),
{
    if sinks.len() == 0 {
        Seq::empty()
    } else if due(sinks.last()) {
        chunks_of(sinks.drop_last()).push(chunk_of(sinks.last()))
    } else {
        chunks_of(sinks.drop_last())
    }
}

/// A sink after a flush: all its text is handed out, and its file exists.
pub open spec fn flushed_sink(sink: SinkView) -> SinkView {
    SinkView { flushed: sink.text().len(), opened: true, ..sink }
}

/// The sinks after a flush.
pub open spec fn flushed_all(sinks: Seq<SinkView>) -> Seq<SinkView> {
    sinks.map_values(|sink: SinkView| flushed_sink(sink))
}

/// What a flush hands out for one sink.
#[derive(Debug)]
pub struct SinkOutput {
    /// The name of the sink's file.
    pub file_name: String,
    /// The text to append to the file.
    pub text: String,
    /// Whether the file is to be made anew before the text is written.
    pub create: bool,
}

impl View for SinkOutput {
    type V = ChunkView;

    open spec fn view(&self) -> ChunkView {
        ChunkView { file_name: self.file_name@, text: self.text@, create: self.create }
    }
}

/// The views of the chunks.
pub open spec fn chunk_views(chunks: Seq<SinkOutput>) -> Seq<ChunkView> {
    chunks.map_values(|chunk: SinkOutput| chunk@)
}

/// One sink of a router.
struct Sink {
    category: String,
    file_name: String,
    pending: String,
    header_written: bool,
    opened: bool,
    header: Ghost<Seq<char>>,
    lines: Ghost<Seq<Seq<char>>>,
    flushed: Ghost<nat>,
}

impl View for Sink {
    type V = SinkView;

    closed spec fn view(&self) -> SinkView {
        SinkView {
            category: self.category@,
            file_name: self.file_name@,
            header_written: self.header_written,
            header: self.header@,
            lines: self.lines@,
            flushed: self.flushed@,
            opened: self.opened,
        }
    }
}

/// The views of the sinks.
spec fn sink_views(sinks: Seq<Sink>) -> Seq<SinkView> {
    sinks.map_values(|sink: Sink| sink@)
}

/// The router: it owns the sinks, makes the sink of a category when the category is
/// first seen, and appends to it the text of each record of that category, the header
/// line first.
pub struct CategoryWriter {
    target: OutputTarget,
    sinks: Vec<Sink>,
}

impl View for CategoryWriter {
    type V = Seq<SinkView>;

    closed spec fn view(&self) -> Seq<SinkView> {
        sink_views(self.sinks@)
    }
}

impl CategoryWriter {
    #[verifier::type_invariant]
    spec fn inv(self) -> bool {
        &&& sinks_wf(self.target@, self@)
        &&& forall|i: int|
            0 <= i < self.sinks@.len() ==> (#[trigger] self.sinks@[i]).pending@
                == self.sinks@[i]@.pending()
    }

    /// How the sinks of this router are addressed.
    pub closed spec fn target_view(self) -> TargetView {
        self.target@
    }

    /// A router without sinks whose files will stand under the given directory.
    pub fn new(output_dir: &str) -> (r: CategoryWriter)
        ensures
            r@ == Seq::<SinkView>::empty(),
            r.target_view() == TargetView::Directory(output_dir@),
    {
        let router = CategoryWriter {
            target: OutputTarget::Directory(output_dir.to_owned()),
            sinks: Vec::new(),
        };
        assert(router@ =~= Seq::<SinkView>::empty());
        router
    }

    /// A router without sinks whose files are named with the given prefix.
    pub fn with_prefix(prefix: &str) -> (r: CategoryWriter)
        ensures
            r@ == Seq::<SinkView>::empty(),
            r.target_view() == TargetView::FilePrefix(prefix@),
    {
        let router = CategoryWriter {
            target: OutputTarget::FilePrefix(prefix.to_owned()),
            sinks: Vec::new(),
        };
        assert(router@ =~= Seq::<SinkView>::empty());
        router
    }

    /// How the sinks of this router are addressed.
    pub fn target(&self) -> (r: &OutputTarget)
        ensures
            r@ == self.target_view(),
    {
        &self.target
    }

    /// The number of sinks, which is the number of categories seen.
    pub fn sink_count(&self) -> (r: usize)
        ensures
            r == self@.len(),
            sinks_wf(self.target_view(), self@),
    {
        proof {
            use_type_invariant(self);
        }
        self.sinks.len()
    }

    /// The position of the sink of a category. Where the category has no sink yet, a
    /// fresh one is registered after the others.
    pub fn fetch_writer(&mut self, category: &str) -> (at: usize)
        ensures
            final(self).target_view() == old(self).target_view(),
            final(self)@ == fetched(old(self).target_view(), old(self)@, category@),
            sinks_wf(final(self).target_view(), final(self)@),
            at < final(self)@.len(),
            at == categories(final(self)@).index_of(category@),
    {
        proof {
            use_type_invariant(&*self);
        }
        let mut i: usize = 0;
        while i < self.sinks.len()
            invariant
                i <= self.sinks@.len(),
                *self == *old(self),
                sinks_wf(self.target@, self@),
                forall|j: int| 0 <= j < i ==> #[trigger] categories(self@)[j] != category@,
            decreases self.sinks@.len() - i,
        {
            if same_name(self.sinks[i].category.as_str(), category) {
                proof {
                    lemma_category_at(self@, i as int);
                }
                return i;
            }
            i += 1;
        }
        let mut file_name = match &self.target {
            OutputTarget::Directory(_) => String::new(),
            OutputTarget::FilePrefix(prefix) => {
                let mut name = prefix.clone();
                name.append(PREFIX_SEPARATOR);
                name
            },
        };
        file_name.append(category);
        file_name.append(FILE_EXTENSION);
        let sink = Sink {
            category: category.to_owned(),
            file_name,
            pending: String::new(),
            header_written: false,
            opened: false,
            header: Ghost(Seq::empty()),
            lines: Ghost(Seq::empty()),
            flushed: Ghost(0),
        };
        proof {
            assert(sink@ =~= SinkView::fresh(self.target@, category@));
            assert(sink.pending@ =~= sink@.pending());
        }
        let ghost before = self@;
        // The sinks leave the router while they change and come back in one step, so
        // that the router is well formed at every point.
        let mut sinks: Vec<Sink> = Vec::new();
        core::mem::swap(&mut self.sinks, &mut sinks);
        sinks.push(sink);
        proof {
            assert(sink_views(sinks@) =~= before.push(sink@));
            assert(categories(before.push(sink@)) =~= categories(before).push(category@));
            lemma_category_at(sink_views(sinks@), i as int);
        }
        core::mem::swap(&mut self.sinks, &mut sinks);
        i
    }

    /// Dispatches one record: its text is appended to the sink of its category, after
    /// the header line where the record is the first of its category. Returns the
    /// number of bytes appended. A record without a category is refused, and nothing
    /// changes.
    pub fn process_record(&mut self, record: &Record) -> (r: CleanResult<usize>)
        ensures
            final(self).target_view() == old(self).target_view(),
            final(self)@ == dispatched(old(self).target_view(), old(self)@, record@),
            sinks_wf(final(self).target_view(), final(self)@),
            match r {
                Ok(bytes) => record@.category().is_some() && bytes == vstd::utf8::encode_utf8(
                    dispatch_text(old(self).target_view(), old(self)@, record@),
                ).len(),
                Err(e) => record@.category().is_none() && e == ParseError::MissingField,
            },
    {
        proof {
            use_type_invariant(&*self);
        }
        let category = match record.get_type() {
            Ok(category) => category,
            Err(e) => {
                return Err(e);
            },
        };
        let at = self.fetch_writer(category.as_str());
        proof {
            use_type_invariant(&*self);
        }
        let ghost with_sink = self@;
        let mut sinks: Vec<Sink> = Vec::new();
        core::mem::swap(&mut self.sinks, &mut sinks);
        let text = if sinks[at].header_written {
            record.to_headless_string()
        } else {
            record.to_string()
        };
        let ghost sink_before = sinks@[at as int]@;
        let ghost header = if sink_before.header_written {
            sink_before.header
        } else {
            record@.header_text()
        };
        sinks[at].pending.append(text.as_str());
        sinks[at].header_written = true;
        sinks[at].header = Ghost(header);
        sinks[at].lines = Ghost(sink_before.lines.push(record@.data_text()));
        proof {
            let sink_after = sinks@[at as int]@;
            assert(sink_before == with_sink[at as int]);
            assert(sink_before.wf());
            assert(text@ == sink_before.appended(record@));
            assert(sink_after =~= sink_before.written(record@));
            assert(concat(sink_after.lines) == concat(sink_before.lines) + record@.data_text()) by {
                assert(sink_after.lines.drop_last() =~= sink_before.lines);
            }
            assert(sink_after.text() =~= sink_before.text() + text@);
            assert(sink_after.pending() =~= sink_before.pending() + text@);
            assert(sink_views(sinks@) =~= with_sink.update(at as int, sink_after));
            assert(categories(sink_views(sinks@)) =~= categories(with_sink));
        }
        core::mem::swap(&mut self.sinks, &mut sinks);
        Ok(text.as_str().as_bytes().len())
    }

    /// Dispatches the records in order. The first record without a category ends the
    /// call with an error: the records before it are dispatched, it and those after it
    /// are not.
    pub fn process_records(&mut self, records: &Vec<Record>) -> (r: CleanResult<()>)
        ensures
            final(self).target_view() == old(self).target_view(),
            final(self)@ == dispatched_all(
                old(self).target_view(),
                old(self)@,
                record_views(records@).take(categorized_prefix(record_views(records@)) as int),
            ),
            sinks_wf(final(self).target_view(), final(self)@),
            match r {
                Ok(_) => categorized_prefix(record_views(records@)) == records@.len(),
                Err(e) => categorized_prefix(record_views(records@)) < records@.len() && e
                    == ParseError::MissingField,
            },
    {
        proof {
            use_type_invariant(&*self);
        }
        let ghost views = record_views(records@);
        let mut i: usize = 0;
        while i < records.len()
            invariant
                i <= records@.len(),
                views == record_views(records@),
                self.target_view() == old(self).target_view(),
                categorized_prefix(views.take(i as int)) == i,
                self@ == dispatched_all(old(self).target_view(), old(self)@, views.take(i as int)),
                sinks_wf(self.target_view(), self@),
            decreases records@.len() - i,
        {
            proof {
                assert(views.take(i + 1).drop_last() =~= views.take(i as int));
            }
            match self.process_record(&records[i]) {
                Ok(_) => {},
                Err(e) => {
                    proof {
                        lemma_categorized_prefix_stops(views, i as int);
                    }
                    return Err(e);
                },
            }
            i += 1;
        }
        proof {
            assert(views.take(records@.len() as int) =~= views);
        }
        Ok(())
    }

    /// Hands out what is to be written: for each sink whose file is still to be made
    /// or that has text pending, the pending text with the name of the file. After the
    /// call nothing is pending, so what is handed out must be written.
    #[must_use]
    pub fn flush(&mut self) -> (r: Vec<SinkOutput>)
        ensures
            final(self).target_view() == old(self).target_view(),
            final(self)@ == flushed_all(old(self)@),
            chunk_views(r@) == chunks_of(old(self)@),
    {
        proof {
            use_type_invariant(&*self);
        }
        let ghost before = self@;
        let mut out: Vec<SinkOutput> = Vec::new();
        let mut sinks: Vec<Sink> = Vec::new();
        core::mem::swap(&mut self.sinks, &mut sinks);
        let mut i: usize = 0;
        while i < sinks.len()
            invariant
                i <= sinks@.len(),
                sinks@.len() == before.len(),
                sinks_wf(self.target@, before),
                forall|j: int| 0 <= j < i ==> #[trigger] sinks@[j]@ == flushed_sink(before[j]),
                forall|j: int| i <= j < sinks@.len() ==> #[trigger] sinks@[j]@ == before[j],
                forall|j: int|
                    0 <= j < sinks@.len() ==> (#[trigger] sinks@[j]).pending@
                        == sinks@[j]@.pending(),
                chunk_views(out@) == chunks_of(before.take(i as int)),
            decreases sinks@.len() - i,
        {
            let ghost sink_before = sinks@[i as int]@;
            proof {
                assert(before.take(i + 1).drop_last() =~= before.take(i as int));
                assert(sink_before == before[i as int]);
                assert(sink_before.wf());
            }
            if !sinks[i].opened || !sinks[i].pending.as_str().is_empty() {
                let mut text = String::new();
                core::mem::swap(&mut sinks[i].pending, &mut text);
                let chunk = SinkOutput {
                    file_name: sinks[i].file_name.clone(),
                    text,
                    create: !sinks[i].opened,
                };
                proof {
                    assert(chunk@ == chunk_of(sink_before));
                    assert(chunk_views(out@.push(chunk)) =~= chunk_views(out@).push(chunk@));
                }
                out.push(chunk);
                sinks[i].opened = true;
                sinks[i].flushed = Ghost(sink_before.text().len());
            }
            proof {
                assert(sinks@[i as int]@ =~= flushed_sink(sink_before));
                assert(sinks@[i as int]@.pending() =~= Seq::<char>::empty());
            }
            i += 1;
        }
        proof {
            assert(before.take(before.len() as int) =~= before);
            assert(sink_views(sinks@) =~= flushed_all(before));
            assert(categories(flushed_all(before)) =~= categories(before));
        }
        core::mem::swap(&mut self.sinks, &mut sinks);
        out
    }
}

impl Default for CategoryWriter {
    /// A router without sinks whose files will stand under the empty path.
    fn default() -> (r: CategoryWriter)
        ensures
            r@ == Seq::<SinkView>::empty(),
            r.target_view() == TargetView::Directory(Seq::<char>::empty()),
    {
        let router = CategoryWriter {
            target: OutputTarget::Directory(String::new()),
            sinks: Vec::new(),
        };
        assert(router@ =~= Seq::<SinkView>::empty());
        router
    }
}

} // verus!
